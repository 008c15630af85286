//! What the bytes of pictures stand for, and what pictures show.
use crate::assets::sprite_texture;
use crate::bytes::{le16, le32};
use crate::color::{quarter_covered, scaled};
use crate::constants::PSM_T8;
use crate::disc::{disc_alpha, disc_byte, disc_model, eighths, one_if, row_hits, sample_in, square};
use crate::packbits::{repeated, unpacked};
use crate::shot::{bilinear, shot_of, source, law_bilinear_between};
use crate::texture::{image_texture, img_entry_texture, tile_ranges, tile_texture, TexModel};
use vstd::prelude::*;

verus! {

// ---- numbers in bytes -------------------------------------------------------------------------

/// Numbers are stored with their lowest byte first.
pub proof fn law_lowest_byte_first(b: Seq<u8>, off: int)
    ensures
        le16(b, off) == b[off] + 256 * b[off + 1],
        le32(b, off) == b[off] + 256 * b[off + 1] + 65536 * b[off + 2] + 16777216 * b[off + 3],
{
}

// ---- packed streams ---------------------------------------------------------------------------

proof fn lemma_unpacked_shift(a: Seq<u8>, b: Seq<u8>, at: int)
    requires
        0 <= at <= b.len(),
    ensures
        unpacked(a + b, a.len() + at) == unpacked(b, at),
    decreases b.len() - at,
{
    let s = a + b;
    let k = a.len() as int;
    if at < b.len() {
        assert(s[k + at] == b[at]);
        if b[at] == 128 {
            lemma_unpacked_shift(a, b, at + 1);
        } else if b[at] < 128 {
            let n = b[at] as int + 1;
            if at + 1 + n <= b.len() {
                lemma_unpacked_shift(a, b, at + 1 + n);
                assert(s.subrange(k + at + 1, k + at + 1 + n) =~= b.subrange(at + 1, at + 1 + n));
            }
        } else if at + 2 <= b.len() {
            assert(s[k + at + 1] == b[at + 1]);
            lemma_unpacked_shift(a, b, at + 2);
        }
    }
}

/// A packed stream is read packet by packet: a number and then one byte more
/// than it says stand for those bytes; 257 less a number, and a byte, stand for
/// as many of that byte; 128 stands for nothing.
pub proof fn law_packets(literal: Seq<u8>, n: int, b: u8, rest: Seq<u8>)
    requires
        1 <= literal.len() <= 128,
        2 <= n <= 128,
        unpacked(rest, 0) is Some,
    ensures
        unpacked(seq![(literal.len() - 1) as u8] + literal + rest, 0) == Some(
            literal + unpacked(rest, 0)->0,
        ),
        unpacked(seq![(257 - n) as u8, b] + rest, 0) == Some(
            Seq::new(n as nat, |i: int| b) + unpacked(rest, 0)->0,
        ),
        unpacked(seq![128u8] + rest, 0) == unpacked(rest, 0),
        unpacked(Seq::<u8>::empty(), 0) == Some(Seq::<u8>::empty()),
{
    let head = seq![(literal.len() - 1) as u8] + literal;
    lemma_unpacked_shift(head, rest, 0);
    let s = head + rest;
    assert(s[0] == literal.len() - 1);
    assert(s.subrange(1, 1 + literal.len() as int) =~= literal);
    let two = seq![(257 - n) as u8, b];
    lemma_unpacked_shift(two, rest, 0);
    let t = two + rest;
    assert(t[0] == 257 - n && t[1] == b);
    assert(repeated(b, n as nat) =~= Seq::new(n as nat, |i: int| b));
    lemma_unpacked_shift(seq![128u8], rest, 0);
    assert((seq![128u8] + rest)[0] == 128);
}

/// A packet that is cut short makes a stream unreadable.
pub proof fn law_cut_packets(n: int, literal: Seq<u8>)
    requires
        0 <= n < 128,
        literal.len() <= n,
    ensures
        unpacked(seq![n as u8] + literal, 0) is None,
        unpacked(seq![(255 - n / 2) as u8], 0) is None,
{
    assert((seq![n as u8] + literal)[0] == n);
}

// ---- images -------------------------------------------------------------------------------------

/// Bytes of a pixel of each format.
pub open spec fn pixel_bytes(psm: u32) -> int {
    if psm == 0 || psm == 2 {
        2
    } else if psm == 3 {
        4
    } else if psm == 5 {
        1
    } else {
        0
    }
}

/// An edge that a texture can have.
pub open spec fn is_edge(v: int) -> bool {
    crate::arith::is_pow2(v) && v <= 512
}

proof fn lemma_edges(v: u32)
    ensures
        is_edge(v as int) <==> crate::texture::is_tex_dim(v),
{
    reveal_with_fuel(crate::arith::is_pow2, 12);
    if is_edge(v as int) {
        lemma_pow2_small(v as int);
    }
}

proof fn lemma_pow2_small(v: int)
    requires
        crate::arith::is_pow2(v),
        v <= 512,
    ensures
        v == 1 || v == 2 || v == 4 || v == 8 || v == 16 || v == 32 || v == 64 || v == 128 || v == 256
            || v == 512,
    decreases v,
{
    if v > 1 {
        assert(v % 2 == 0 && crate::arith::is_pow2(v / 2));
        lemma_pow2_small(v / 2);
    }
}

/// Plain image data is stored as it is: the table of colours first where the
/// format has one, then as many bytes of pixels as width, height and format ask
/// for. What is behind them is left out, and data that is too short, a size that
/// is not a power of two up to 512 and an unknown format are refused.
#[verifier::rlimit(50)]
pub proof fn law_image_holds_its_data(
    table: Seq<u8>,
    pixels: Seq<u8>,
    more: Seq<u8>,
    w: u32,
    h: u32,
    psm: u32,
    linear: bool,
)
    requires
        table.len() == (if psm == 5 {
            1024int
        } else {
            0
        }),
        pixels.len() == w * h * pixel_bytes(psm),
    ensures
        ({
            let flags = if linear {
                2u8
            } else {
                0
            };
            let t = image_texture(table + pixels + more, w, h, psm, flags);
            if is_edge(w as int) && is_edge(h as int) && pixel_bytes(psm) > 0 {
                t == Some(
                    TexModel {
                        pixels,
                        w,
                        h,
                        psm,
                        palette: if psm == 5 {
                            Some(table)
                        } else {
                            None
                        },
                        linear,
                        revision: 0,
                    },
                ) && (pixels.len() > 0 ==> image_texture(
                    table + pixels.drop_last(),
                    w,
                    h,
                    psm,
                    flags,
                ) is None)
            } else {
                t is None
            }
        }),
{
    lemma_edges(w);
    lemma_edges(h);
    let all = table + pixels + more;
    let n = table.len() as int;
    assert(all.skip(n).take(pixels.len() as int) =~= pixels);
    assert(all.take(n) =~= table);
    assert(all.skip(n).len() >= pixels.len());
    assert(1u8 as int / 1 % 2 == 1 && 2int / 1 % 2 == 0 && 0int / 1 % 2 == 0);
    if pixels.len() > 0 {
        let cut = table + pixels.drop_last();
        assert(cut.skip(n) =~= pixels.drop_last());
    }
}

/// Packed image data is stored as what it stands for, if that is just as long as
/// width, height and format ask for.
pub proof fn law_packed_image(table: Seq<u8>, stream: Seq<u8>, w: u32, h: u32, psm: u32, linear: bool)
    requires
        table.len() == (if psm == 5 {
            1024int
        } else {
            0
        }),
        is_edge(w as int),
        is_edge(h as int),
        pixel_bytes(psm) > 0,
    ensures
        ({
            let flags = if linear {
                3u8
            } else {
                1
            };
            let t = image_texture(table + stream, w, h, psm, flags);
            &&& t is Some <==> unpacked(stream, 0) is Some && unpacked(stream, 0)->0.len() == w * h
                * pixel_bytes(psm)
            &&& t is Some ==> t->0.pixels == unpacked(stream, 0)->0 && (t->0.w, t->0.h, t->0.psm)
                == (w, h, psm) && t->0.linear == linear && t->0.palette == (if psm == 5 {
                Some(table)
            } else {
                None
            })
        }),
{
    lemma_edges(w);
    lemma_edges(h);
    let all = table + stream;
    let n = table.len() as int;
    assert(all.skip(n) =~= stream);
    assert(all.take(n) =~= table);
}

/// An image entry is a header and image data: two bytes each for width and
/// height, lowest first, one each for format and flags, and two that do not
/// count.
#[verifier::rlimit(50)]
pub proof fn law_image_entries(
    w: u16,
    h: u16,
    psm: u8,
    flags: u8,
    spare: (u8, u8),
    data: Seq<u8>,
)
    ensures
        img_entry_texture(
            seq![
                (w % 256) as u8,
                (w / 256) as u8,
                (h % 256) as u8,
                (h / 256) as u8,
                psm,
                flags,
                spare.0,
                spare.1,
            ] + data,
        ) == image_texture(data, w as u32, h as u32, psm as u32, flags),
{
    let head = seq![
        (w % 256) as u8,
        (w / 256) as u8,
        (h % 256) as u8,
        (h / 256) as u8,
        psm,
        flags,
        spare.0,
        spare.1,
    ];
    let b = head + data;
    assert(b.skip(8) =~= data);
    assert(b[0] == head[0] && b[1] == head[1] && b[2] == head[2] && b[3] == head[3]);
    assert(b[4] == psm && b[5] == flags);
}

/// A sprite entry is a header and plain image data: two bytes each for width and
/// height, one for the format, one that is zero, two each for cells, columns and
/// frames of a cell, and four that do not count. Its columns divide its width
/// and its rows its height.
#[verifier::rlimit(50)]
pub proof fn law_sprite_entries(
    w: u16,
    h: u16,
    psm: u8,
    frames: u16,
    cols: u16,
    step: u16,
    spare: (u8, u8, u8, u8),
    data: Seq<u8>,
)
    requires
        frames > 0,
        cols > 0,
        step > 0,
    ensures
        ({
            let head = seq![
                (w % 256) as u8,
                (w / 256) as u8,
                (h % 256) as u8,
                (h / 256) as u8,
                psm,
                0,
                (frames % 256) as u8,
                (frames / 256) as u8,
                (cols % 256) as u8,
                (cols / 256) as u8,
                (step % 256) as u8,
                (step / 256) as u8,
                spare.0,
                spare.1,
                spare.2,
                spare.3,
            ];
            let rows = (frames + cols - 1) / (cols as int);
            sprite_texture(head + data) == (if w as int % cols as int == 0 && h as int % rows == 0 {
                image_texture(data, w as u32, h as u32, psm as u32, 0)
            } else {
                None
            })
        }),
{
    let head = seq![
        (w % 256) as u8,
        (w / 256) as u8,
        (h % 256) as u8,
        (h / 256) as u8,
        psm,
        0,
        (frames % 256) as u8,
        (frames / 256) as u8,
        (cols % 256) as u8,
        (cols / 256) as u8,
        (step % 256) as u8,
        (step / 256) as u8,
        spare.0,
        spare.1,
        spare.2,
        spare.3,
    ];
    let b = head + data;
    assert(b.skip(16) =~= data);
    assert(b[0] == head[0] && b[1] == head[1] && b[2] == head[2] && b[3] == head[3]);
    assert(b[4] == head[4] && b[5] == head[5] && b[6] == head[6] && b[7] == head[7]);
    assert(b[8] == head[8] && b[9] == head[9] && b[10] == head[10] && b[11] == head[11]);
}

/// The number of four bytes at `at`.
pub open spec fn number_at(b: Seq<u8>, at: int) -> int {
    b[at] + 256 * b[at + 1] + 65536 * b[at + 2] + 16777216 * b[at + 3]
}

proof fn lemma_tile_ranges(blob: Seq<u8>, index: int)
    requires
        0 <= index,
        tile_ranges(blob, index) is Some,
    ensures
        ({
            let (table, start, len) = tile_ranges(blob, index)->0;
            let entry = number_at(blob, 20) + 8 * index;
            &&& number_at(blob, 0) == 0x5354_4b50
            &&& table == number_at(blob, 16)
            &&& start == number_at(blob, 24) + number_at(blob, entry)
            &&& len == number_at(blob, entry + 4)
            &&& len > 0 && start + len <= blob.len()
            &&& index < (blob[12] + 256 * blob[13]) * (blob[14] + 256 * blob[15])
        }),
{
    law_lowest_byte_first(blob, 0);
    law_lowest_byte_first(blob, 16);
    law_lowest_byte_first(blob, 20);
    law_lowest_byte_first(blob, 24);
    let entry = number_at(blob, 20) + 8 * index;
    law_lowest_byte_first(blob, entry);
    law_lowest_byte_first(blob, entry + 4);
}

/// A tile is a texture of the size that its tileset says, with the tileset's
/// table of colours. Its bytes start where its entry says, behind the start of
/// all tiles, and are plain or packed for all tiles alike.
#[verifier::spinoff_prover]
#[verifier::rlimit(60)]
pub proof fn law_tiles(blob: Seq<u8>, index: int)
    requires
        0 <= index,
        tile_texture(blob, index) is Some,
    ensures
        ({
            let t = tile_texture(blob, index)->0;
            let table = number_at(blob, 16);
            let entry = number_at(blob, 20) + 8 * index;
            let start = number_at(blob, 24) + number_at(blob, entry);
            let len = number_at(blob, entry + 4);
            let stream = blob.subrange(start, start + len);
            let packed = blob[6] % 2 == 1;
            &&& number_at(blob, 0) == 0x5354_4b50
            &&& t.w == blob[8] + 256 * blob[9] && t.h == blob[10] + 256 * blob[11]
            &&& index < (blob[12] + 256 * blob[13]) * (blob[14] + 256 * blob[15])
            &&& t.psm == 5
            &&& t.palette == Some(blob.subrange(table, table + 1024))
            &&& t.linear == ((blob[6] / 2) % 2 == 1)
            &&& len > 0 && start + len <= blob.len()
            &&& !packed ==> t.pixels == stream.take(t.w * t.h)
            &&& packed ==> Some(t.pixels) == unpacked(stream, 0)
            &&& t.pixels.len() == t.w * t.h
        }),
{
    lemma_tile_ranges(blob, index);
    let flags = blob[6] + 256 * blob[7];
    assert(flags % 2 == blob[6] as int % 2);
    assert((flags / 2) % 2 == (blob[6] as int / 2) % 2);
    let t = tile_texture(blob, index)->0;
    crate::texture::lemma_tile_complete(blob, index);
    assert(t.w * t.h * 1 == t.w * t.h) by (nonlinear_arith);
}

// ---- discs ---------------------------------------------------------------------------------------

/// A pixel that lies inside the circle with all its corners is opaque; one whose
/// corner next to the centre lies outside is clear. It is enough to say so of
/// the top left quarter, which the others mirror.
pub proof fn law_disc_is_filled(c: int, x: int, y: int)
    requires
        0 <= x < c,
        0 <= y < c,
    ensures
        (c - x) * (c - x) + (c - y) * (c - y) <= c * c ==> disc_alpha(c, x, y) == 255,
        (c - x - 1) * (c - x - 1) + (c - y - 1) * (c - y - 1) >= c * c ==> disc_alpha(c, x, y) == 0,
{
    lemma_disc_row(c, x, y, 0);
    lemma_disc_row(c, x, y, 1);
    lemma_disc_row(c, x, y, 2);
    lemma_disc_row(c, x, y, 3);
}

proof fn lemma_disc_row(c: int, x: int, y: int, sy: int)
    requires
        0 <= x < c,
        0 <= y < c,
        0 <= sy < 4,
    ensures
        (c - x) * (c - x) + (c - y) * (c - y) <= c * c ==> row_hits(c, x, y, sy) == 4,
        (c - x - 1) * (c - x - 1) + (c - y - 1) * (c - y - 1) >= c * c ==> row_hits(c, x, y, sy)
            == 0,
{
    lemma_disc_sample(c, x, y, 0, sy);
    lemma_disc_sample(c, x, y, 1, sy);
    lemma_disc_sample(c, x, y, 2, sy);
    lemma_disc_sample(c, x, y, 3, sy);
}

proof fn lemma_disc_sample(c: int, x: int, y: int, sx: int, sy: int)
    requires
        0 <= x < c,
        0 <= y < c,
        0 <= sx < 4,
        0 <= sy < 4,
    ensures
        (c - x) * (c - x) + (c - y) * (c - y) <= c * c ==> sample_in(c, x, y, sx, sy),
        (c - x - 1) * (c - x - 1) + (c - y - 1) * (c - y - 1) >= c * c ==> !sample_in(
            c,
            x,
            y,
            sx,
            sy,
        ),
{
    let (u, v) = (-eighths(c, x, sx), -eighths(c, y, sy));
    let (a, b) = (c - x, c - y);
    assert(8 * a - 8 < u < 8 * a && 8 * b - 8 < v < 8 * b && 0 < u && 0 < v);
    assert(square(eighths(c, x, sx)) == u * u && square(eighths(c, y, sy)) == v * v) by {
        assert((-u) * (-u) == u * u) by (nonlinear_arith);
        assert((-v) * (-v) == v * v) by (nonlinear_arith);
    }
    assert(u * u <= 64 * (a * a) && v * v <= 64 * (b * b)) by (nonlinear_arith)
        requires
            0 < u < 8 * a,
            0 < v < 8 * b,
    ;
    assert(64 * ((a - 1) * (a - 1)) < u * u && 64 * ((b - 1) * (b - 1)) < v * v) by (
        nonlinear_arith)
        requires
            0 <= 8 * a - 8 < u,
            0 <= 8 * b - 8 < v,
    ;
    assert(square(8 * c) == 64 * (c * c)) by (nonlinear_arith);
}

/// Pixels of a disc grow no fainter towards its centre.
pub proof fn law_disc_thickens(c: int, x: int, y: int)
    requires
        0 <= x,
        x + 1 < c,
        0 <= y < 2 * c,
    ensures
        disc_alpha(c, x, y) <= disc_alpha(c, x + 1, y),
{
    lemma_row_thickens(c, x, y, 0);
    lemma_row_thickens(c, x, y, 1);
    lemma_row_thickens(c, x, y, 2);
    lemma_row_thickens(c, x, y, 3);
}

proof fn lemma_row_thickens(c: int, x: int, y: int, sy: int)
    requires
        0 <= x,
        x + 1 < c,
    ensures
        row_hits(c, x, y, sy) <= row_hits(c, x + 1, y, sy),
{
    lemma_sample_thickens(c, x, y, 0, sy);
    lemma_sample_thickens(c, x, y, 1, sy);
    lemma_sample_thickens(c, x, y, 2, sy);
    lemma_sample_thickens(c, x, y, 3, sy);
}

proof fn lemma_sample_thickens(c: int, x: int, y: int, sx: int, sy: int)
    requires
        0 <= x,
        x + 1 < c,
        0 <= sx < 4,
    ensures
        sample_in(c, x, y, sx, sy) ==> sample_in(c, x + 1, y, sx, sy),
{
    let u = eighths(c, x, sx);
    assert(eighths(c, x + 1, sx) == u + 8);
    assert((u + 8) * (u + 8) <= u * u) by (nonlinear_arith)
        requires
            u + 8 < 0,
    ;
}

/// The texture of a disc is white, and its alpha is that of the disc, row by
/// row.
pub proof fn law_disc_texels(c: int, dim: int, x: int, y: int)
    requires
        0 <= x < dim,
        0 <= y < dim,
        dim <= 512,
        0 <= disc_alpha(c, x, y) <= 255,
    ensures
        ({
            let t = disc_model(c, dim);
            let at = 4 * (y * dim + x);
            &&& t.w == dim && t.h == dim
            &&& 0 <= at && at + 3 < t.pixels.len()
            &&& t.pixels[at] == 255 && t.pixels[at + 1] == 255 && t.pixels[at + 2] == 255
            &&& t.pixels[at + 3] == disc_alpha(c, x, y)
        }),
{
    crate::arith::lemma_cell_in_grid(x, y, dim, dim);
    let p = y * dim + x;
    assert(p % dim == x && p / dim == y) by (nonlinear_arith)
        requires
            p == y * dim + x,
            0 <= x < dim,
            0 <= y,
    ;
    assert((4 * p) % 4 == 0 && (4 * p + 1) % 4 == 1 && (4 * p + 2) % 4 == 2 && (4 * p + 3) % 4 == 3);
    assert((4 * p + 3) / 4 == p);
}

// ---- the picture of an app ----------------------------------------------------------------------

/// Each pixel of the picture of a screen lies between the four pixels of the
/// screen that are next to where it comes from, channel by channel: column `x`
/// of 256 comes from as far along the 480 columns of the screen, and row `y` of
/// 128 from as far down its 272 rows. Pictures are opaque.
pub proof fn law_picture_shows_the_screen(
    frame: Seq<u8>,
    x: int,
    y: int,
    c: int,
    lo: int,
    hi: int,
)
    requires
        0 <= x < 256,
        0 <= y < 128,
        0 <= c < 3,
        ({
            let (x0, y0) = ((480 * x + 112) / 256, (272 * y + 72) / 128);
            let x1 = if x0 < 479 {
                x0 + 1
            } else {
                479
            };
            let y1 = if y0 < 271 {
                y0 + 1
            } else {
                271
            };
            &&& lo <= frame[2048 * y0 + 4 * x0 + c] <= hi
            &&& lo <= frame[2048 * y0 + 4 * x1 + c] <= hi
            &&& lo <= frame[2048 * y1 + 4 * x0 + c] <= hi
            &&& lo <= frame[2048 * y1 + 4 * x1 + c] <= hi
        }),
        0 <= lo,
        hi <= 255,
    ensures
        ({
            let at = 4 * (256 * y + x);
            &&& at + 3 < shot_of(frame).len()
            &&& lo <= shot_of(frame)[at + c] <= hi
            &&& shot_of(frame)[at + 3] == 255
        }),
{
    let at = 4 * (256 * y + x);
    let (x0, y0) = ((480 * x + 112) / 256, (272 * y + 72) / 128);
    assert(crate::shot::src_x16(x) / 16 == x0);
    assert(crate::shot::src_y16(y) / 16 == y0);
    assert((at + c) / 4 == 256 * y + x && (at + c) % 4 == c && (at + 3) % 4 == 3);
    assert((256 * y + x) % 256 == x && (256 * y + x) / 256 == y);
    assert((at + 3) / 4 == 256 * y + x);
    let x1 = crate::shot::at_most(x0 + 1, 479);
    let y1 = crate::shot::at_most(y0 + 1, 271);
    law_bilinear_between(
        source(frame, x0, y0, c),
        source(frame, x1, y0, c),
        source(frame, x0, y1, c),
        source(frame, x1, y1, c),
        crate::shot::src_x16(x) % 16,
        crate::shot::src_y16(y) % 16,
        lo,
        hi,
    );
}

/// Between two columns of the same colours a picture goes evenly from the left
/// one to the right one, and between two rows from the upper to the lower one.
pub proof fn law_picture_mixes_evenly(a: int, b: int, f: int, g: int)
    requires
        0 <= a <= 255,
        0 <= b <= 255,
        0 <= f < 16,
        0 <= g < 16,
    ensures
        -8 <= 16 * bilinear(a, b, a, b, f, g) - (a * (16 - f) + b * f) <= 8,
        -8 <= 16 * bilinear(a, a, b, b, g, f) - (a * (16 - f) + b * f) <= 8,
{
    let m = a * (16 - f) + b * f;
    assert(m * (16 - g) + m * g == 16 * m) by (nonlinear_arith);
    assert(a * (16 - g) + a * g == 16 * a) by (nonlinear_arith);
    assert(b * (16 - g) + b * g == 16 * b) by (nonlinear_arith);
    assert((16 * a) * (16 - f) + (16 * b) * f == 16 * m) by (nonlinear_arith)
        requires
            m == a * (16 - f) + b * f,
    ;
}

// ---- colours -------------------------------------------------------------------------------------

/// Quarters of coverage take that part of a colour's alpha, rounded, and keep
/// the rest of it.
pub proof fn law_quarters(color: u32, quarters: int)
    requires
        0 <= quarters,
    ensures
        quarters >= 4 ==> quarter_covered(color, quarters) == color,
        quarters < 4 ==> ({
            let c = quarter_covered(color, quarters);
            &&& c % 0x100_0000 == color as int % 0x100_0000
            &&& -2 <= 4 * (c / 0x100_0000) - (color as int / 0x100_0000) * quarters <= 2
        }),
{
    crate::arith::lemma_mul_bounds(color as int / 0x100_0000, quarters, 255, if quarters < 4 {
        3
    } else {
        quarters
    });
}

/// The product of two coverages in 255ths is rounded to the nearest.
pub proof fn law_products_are_rounded(a: int, b: int)
    ensures
        -127 <= 255 * scaled(a, b) - a * b <= 127,
{
}

} // verus!
