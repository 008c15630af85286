//! From a draw list to commands for a fixed-function graphics engine.
//!
//! `render_over` reads the words of a draw list and answers with the commands
//! of one pass. Consecutive operations of one sort are drawn in one batch. The
//! list ends at the first operation that is unknown or cut short.
//!
//! Texture corners stay bit patterns of fractions of the texture; whoever
//! carries the commands out scales them to texels.
use crate::arith::{lemma_mul_bounds, to_i16, wrap16};
use crate::constants::{
    GRAD_TO_LEFT, GRAD_TO_RIGHT, GRAD_TO_TOP, MAX_FONT_SLOTS, OP_GLYPH_RUN, OP_GRAD_RECT, OP_RECT,
    OP_SCISSOR, OP_SCISSOR_POP, OP_SURFACE_QUAD, OP_TEX_QUAD, OP_TEX_TRI, OP_TRI, PSM_4444, PSM_5650,
    PSM_8888, PSM_T8, SCREEN_H, SCREEN_W,
};
use crate::font::{font_grid, grid_for, Atlas, FontTexture};
use crate::glyph::{
    count_glyph_runs, glyph_alpha, glyph_row, glyph_runs, lemma_run_end, recolored, row_runs,
    run_end, with_alpha, Run,
};
use crate::texture::{resolves, slot_models, tex_resolve, SlotModel, TexSlot, TexView};
use vstd::prelude::*;

verus! {

// ---- packed words -----------------------------------------------------------------

/// Horizontal position in a packed xy word.
pub open spec fn x_of(word: u32) -> int {
    wrap16(word as int % 0x1_0000)
}

/// Vertical position in a packed xy word.
pub open spec fn y_of(word: u32) -> int {
    wrap16(word as int / 0x1_0000)
}

/// Width in a packed wh word.
pub open spec fn w_of(word: u32) -> int {
    word as int % 0x1_0000
}

/// Height in a packed wh word.
pub open spec fn h_of(word: u32) -> int {
    word as int / 0x1_0000
}

/// Unpacks a position.
pub fn xy(word: u32) -> (r: (i16, i16))
    ensures
        r.0 == x_of(word),
        r.1 == y_of(word),
{
    (to_i16((word % 0x1_0000) as i32), to_i16((word / 0x1_0000) as i32))
}

/// Unpacks a size.
pub fn wh(word: u32) -> (r: (i32, i32))
    ensures
        r.0 == w_of(word),
        r.1 == h_of(word),
{
    ((word % 0x1_0000) as i32, (word / 0x1_0000) as i32)
}

// ---- vertices and commands ----------------------------------------------------------

/// A coloured vertex.
#[derive(Clone, Copy, PartialEq, Eq, Debug)]
pub struct VertC {
    pub color: u32,
    pub x: i16,
    pub y: i16,
}

/// A coloured vertex with a texture position in texels.
#[derive(Clone, Copy, PartialEq, Eq, Debug)]
pub struct VertTC {
    pub u: i16,
    pub v: i16,
    pub color: u32,
    pub x: i16,
    pub y: i16,
}

/// A coloured vertex with a texture position as bit patterns of fractions.
#[derive(Clone, Copy, PartialEq, Eq, Debug)]
pub struct VertUv {
    pub u: u32,
    pub v: u32,
    pub color: u32,
    pub x: i16,
    pub y: i16,
}

/// One command of a pass.
pub enum GeCmd {
    /// The whole picture in one colour.
    Clear(u32),
    /// Blending on, texturing off.
    Begin,
    /// Rectangles, two corners each.
    Sprites(Vec<VertC>),
    /// A strip of two triangles.
    Strip(Vec<VertC>),
    /// Triangles, three corners each.
    Triangles(Vec<VertC>),
    /// Glyphs from the coverage texture of a font slot, two corners each.
    GlyphSprites(u8, Vec<VertTC>),
    /// Glyphs as rectangles of their runs, for an atlas without a texture.
    GlyphRects(Vec<VertC>),
    /// Textured rectangles, two corners each.
    TexSprites(i32, Vec<VertUv>),
    /// Textured triangles, three corners each.
    TexTriangles(i32, Vec<VertUv>),
    /// Drawing area: left, top, right, bottom.
    Scissor(i32, i32, i32, i32),
    /// Blending and texturing off, drawing area back to the whole screen.
    End,
}

/// What a command says.
pub enum GeStep {
    Clear(u32),
    Begin,
    Sprites(Seq<VertC>),
    Strip(Seq<VertC>),
    Triangles(Seq<VertC>),
    GlyphSprites(u8, Seq<VertTC>),
    GlyphRects(Seq<VertC>),
    TexSprites(i32, Seq<VertUv>),
    TexTriangles(i32, Seq<VertUv>),
    Scissor(i32, i32, i32, i32),
    End,
}

impl View for GeCmd {
    type V = GeStep;

    open spec fn view(&self) -> GeStep {
        match *self {
            GeCmd::Clear(color) => GeStep::Clear(color),
            GeCmd::Begin => GeStep::Begin,
            GeCmd::Sprites(v) => GeStep::Sprites(v@),
            GeCmd::Strip(v) => GeStep::Strip(v@),
            GeCmd::Triangles(v) => GeStep::Triangles(v@),
            GeCmd::GlyphSprites(slot, v) => GeStep::GlyphSprites(slot, v@),
            GeCmd::GlyphRects(v) => GeStep::GlyphRects(v@),
            GeCmd::TexSprites(handle, v) => GeStep::TexSprites(handle, v@),
            GeCmd::TexTriangles(handle, v) => GeStep::TexTriangles(handle, v@),
            GeCmd::Scissor(x0, y0, x1, y1) => GeStep::Scissor(x0, y0, x1, y1),
            GeCmd::End => GeStep::End,
        }
    }
}

/// What a sequence of commands says.
pub open spec fn steps(cmds: Seq<GeCmd>) -> Seq<GeStep> {
    Seq::new(cmds.len(), |i: int| cmds[i]@)
}

// ---- vertices of a record -----------------------------------------------------------

/// The near corner of a rectangle.
pub open spec fn near(xy: u32, color: u32) -> VertC {
    VertC { color, x: x_of(xy) as i16, y: y_of(xy) as i16 }
}

/// The far corner of a rectangle.
pub open spec fn far(xy: u32, wh: u32, color: u32) -> VertC {
    VertC {
        color,
        x: wrap16(x_of(xy) + w_of(wh)) as i16,
        y: wrap16(y_of(xy) + h_of(wh)) as i16,
    }
}

/// Corners of `count` rectangle records from `at` on.
pub open spec fn rect_verts(words: Seq<u32>, at: int, count: nat) -> Seq<VertC> {
    Seq::new(
        2 * count,
        |j: int|
            {
                let o = at + 4 * (j / 2);
                if j % 2 == 0 {
                    near(words[o + 1], words[o + 3])
                } else {
                    far(words[o + 1], words[o + 2], words[o + 3])
                }
            },
    )
}

/// Corners of `count` triangle records from `at` on.
pub open spec fn tri_verts(words: Seq<u32>, at: int, count: nat) -> Seq<VertC> {
    Seq::new(
        3 * count,
        |j: int|
            {
                let o = at + 7 * (j / 3);
                near(words[o + 1 + j % 3], words[o + 4 + j % 3])
            },
    )
}

/// The four corners of a gradient record at `at`, in strip order.
pub open spec fn grad_verts(words: Seq<u32>, at: int) -> Seq<VertC> {
    let (from, to, dir) = (words[at + 3], words[at + 4], words[at + 5]);
    let (tl, tr, bl, br) = if dir == GRAD_TO_TOP {
        (to, to, from, from)
    } else if dir == GRAD_TO_LEFT {
        (to, from, to, from)
    } else if dir == GRAD_TO_RIGHT {
        (from, to, from, to)
    } else {
        (from, from, to, to)
    };
    let a = near(words[at + 1], 0);
    let b = far(words[at + 1], words[at + 2], 0);
    seq![
        VertC { color: tl, x: a.x, y: a.y },
        VertC { color: tr, x: b.x, y: a.y },
        VertC { color: bl, x: a.x, y: b.y },
        VertC { color: br, x: b.x, y: b.y },
    ]
}

/// Corners of `count` textured rectangle records from `at` on.
pub open spec fn quad_verts(words: Seq<u32>, at: int, count: nat) -> Seq<VertUv> {
    Seq::new(
        2 * count,
        |j: int|
            {
                let o = at + 9 * (j / 2);
                let c = if j % 2 == 0 {
                    near(words[o + 2], words[o + 8])
                } else {
                    far(words[o + 2], words[o + 3], words[o + 8])
                };
                VertUv {
                    u: words[o + 4 + 2 * (j % 2)],
                    v: words[o + 5 + 2 * (j % 2)],
                    color: c.color,
                    x: c.x,
                    y: c.y,
                }
            },
    )
}

/// Corners of `count` textured triangle records from `at` on.
pub open spec fn tex_tri_verts(words: Seq<u32>, at: int, count: nat) -> Seq<VertUv> {
    Seq::new(
        3 * count,
        |j: int|
            {
                let o = at + 12 * (j / 3);
                let k = 3 * (j % 3);
                VertUv {
                    u: words[o + 3 + k],
                    v: words[o + 4 + k],
                    color: words[o + 11],
                    x: x_of(words[o + 2 + k]) as i16,
                    y: y_of(words[o + 2 + k]) as i16,
                }
            },
    )
}

// ---- glyph runs -------------------------------------------------------------------

/// Both corners of glyph `gid` of a coverage texture of `cols` columns, drawn
/// at `xy`.
pub open spec fn glyph_sprite(xy: u32, gid: int, color: u32, atlas: Atlas, cols: int) -> Seq<
    VertTC,
> {
    let sx = (gid % cols) * atlas.cov_w();
    let sy = (gid / cols) * atlas.cov_h();
    seq![
        VertTC {
            u: wrap16(sx) as i16,
            v: wrap16(sy) as i16,
            color,
            x: x_of(xy) as i16,
            y: y_of(xy) as i16,
        },
        VertTC {
            u: wrap16(sx + atlas.cov_w()) as i16,
            v: wrap16(sy + atlas.cov_h()) as i16,
            color,
            x: wrap16(x_of(xy) + atlas.cell_w) as i16,
            y: wrap16(y_of(xy) + atlas.cell_h) as i16,
        },
    ]
}

/// The glyph of record `g` of a glyph run whose records start at `body`.
pub open spec fn glyph_at(words: Seq<u32>, body: int, g: int) -> int {
    words[body + 2 * g + 1] as int % 0x1_0000
}

/// Corners of the glyphs `g..count`, leaving out those the atlas lacks.
pub open spec fn glyph_sprites(
    words: Seq<u32>,
    body: int,
    g: int,
    count: int,
    color: u32,
    atlas: Atlas,
    cols: int,
) -> Seq<VertTC>
    decreases count - g,
{
    if g >= count {
        Seq::empty()
    } else {
        let gid = glyph_at(words, body, g);
        let rest = glyph_sprites(words, body, g + 1, count, color, atlas, cols);
        if gid < atlas.glyph_count {
            glyph_sprite(words[body + 2 * g], gid, color, atlas, cols) + rest
        } else {
            rest
        }
    }
}

/// Both corners of each run of row `y` of a glyph drawn at `xy`.
pub open spec fn run_verts(runs: Seq<Run>, xy: u32, y: int, color: u32) -> Seq<VertC> {
    Seq::new(
        2 * runs.len(),
        |j: int|
            {
                let run = runs[j / 2];
                VertC {
                    color: recolored(color, run.alpha) as u32,
                    x: wrap16(
                        x_of(xy) + if j % 2 == 0 {
                            run.start
                        } else {
                            run.end
                        },
                    ) as i16,
                    y: wrap16(y_of(xy) + y + j % 2) as i16,
                }
            },
    )
}

/// Corners of the runs of a glyph from row `y` on.
pub open spec fn cell_verts(atlas: Atlas, gid: int, xy: u32, y: int, color: u32) -> Seq<VertC>
    decreases atlas.cell_h - y,
{
    if y >= atlas.cell_h {
        Seq::empty()
    } else {
        run_verts(row_runs(glyph_row(atlas, gid, y, color), 0), xy, y, color) + cell_verts(
            atlas,
            gid,
            xy,
            y + 1,
            color,
        )
    }
}

/// Corners of the runs of the glyphs `g..count`, leaving out those the atlas
/// lacks.
pub open spec fn glyph_rects(
    words: Seq<u32>,
    body: int,
    g: int,
    count: int,
    color: u32,
    atlas: Atlas,
) -> Seq<VertC>
    decreases count - g,
{
    if g >= count {
        Seq::empty()
    } else {
        let gid = glyph_at(words, body, g);
        let rest = glyph_rects(words, body, g + 1, count, color, atlas);
        if gid < atlas.glyph_count {
            cell_verts(atlas, gid, words[body + 2 * g], 0, color) + rest
        } else {
            rest
        }
    }
}

/// The columns of the coverage texture of an atlas, when it has one.
pub open spec fn sprite_cols(atlas: Atlas, fallback: bool) -> Option<int> {
    if fallback || atlas.slot >= MAX_FONT_SLOTS {
        None
    } else {
        match grid_for(atlas.glyph_count as int, atlas.cov_w(), atlas.cov_h()) {
            Some((cols, _tex_w, _tex_h)) => Some(cols),
            None => None,
        }
    }
}

/// The command of a glyph run at `at`: nothing without an atlas; glyphs from
/// its texture, or else as rectangles.
pub open spec fn glyph_run_step(
    words: Seq<u32>,
    at: int,
    atlases: Seq<Option<Atlas>>,
    fallback: bool,
) -> Seq<GeStep> {
    let slot = words[at + 1] as int % 0x100;
    let count = words[at + 1] as int / 0x1_0000;
    let color = words[at + 2];
    if slot < atlases.len() && atlases[slot] is Some {
        let atlas = atlases[slot]->0;
        match sprite_cols(atlas, fallback) {
            Some(cols) => seq![
                GeStep::GlyphSprites(
                    slot as u8,
                    glyph_sprites(words, at + 3, 0, count, color, atlas, cols),
                ),
            ],
            None => seq![
                GeStep::GlyphRects(glyph_rects(words, at + 3, 0, count, color, atlas)),
            ],
        }
    } else {
        Seq::empty()
    }
}

// ---- the pass -----------------------------------------------------------------------

/// The record at `at` is an `op` and, where a texture is asked for, of that
/// texture.
pub open spec fn is_record(words: Seq<u32>, at: int, op: u32, texture: Option<u32>) -> bool {
    words[at] == op && (texture matches Some(t) ==> words[at + 1] == t)
}

/// Number of complete records of `stride` words from `at` on, without a gap,
/// that are of one sort.
pub open spec fn records(
    words: Seq<u32>,
    at: int,
    op: u32,
    stride: int,
    texture: Option<u32>,
) -> nat
    decreases words.len() - at,
{
    if stride < 1 || at < 0 || at + stride > words.len() || !is_record(words, at, op, texture) {
        0
    } else {
        1 + records(words, at + stride, op, stride, texture)
    }
}

/// A drawing area: left, top, right, bottom.
pub type Area = (i32, i32, i32, i32);

/// What the decoder does next: its commands, the next position, and the stack
/// of drawing areas.
pub struct Decoded {
    pub out: Seq<GeStep>,
    pub next: int,
    pub areas: Seq<Area>,
}

/// The whole screen.
pub open spec fn full_screen() -> Area {
    (0, 0, SCREEN_W as i32, SCREEN_H as i32)
}

pub open spec fn area_step(a: Area) -> GeStep {
    GeStep::Scissor(a.0, a.1, a.2, a.3)
}

/// The area that a record at `at` narrows drawing to.
pub open spec fn area_at(words: Seq<u32>, at: int) -> Area {
    let (x, y) = (x_of(words[at + 1]), y_of(words[at + 1]));
    (
        x as i32,
        y as i32,
        (x + w_of(words[at + 2])) as i32,
        (y + h_of(words[at + 2])) as i32,
    )
}

/// The stack without its top, and the area then in force.
pub open spec fn area_below(areas: Seq<Area>) -> Area {
    if areas.len() > 1 {
        areas[areas.len() - 2]
    } else {
        full_screen()
    }
}

/// What the operation at `at` says; `None` at the end of the list and where an
/// operation is unknown or cut short.
#[verifier::opaque]
pub open spec fn decode_op(
    words: Seq<u32>,
    at: int,
    areas: Seq<Area>,
    slots: Seq<SlotModel>,
    atlases: Seq<Option<Atlas>>,
    fallback: bool,
) -> Option<Decoded> {
    let n = words.len();
    if at < 0 || at >= n {
        None
    } else if words[at] == OP_RECT && at + 4 <= n {
        let count = records(words, at, OP_RECT, 4, None);
        Some(
            Decoded {
                out: seq![GeStep::Sprites(rect_verts(words, at, count))],
                next: at + 4 * count,
                areas,
            },
        )
    } else if words[at] == OP_GRAD_RECT && at + 6 <= n {
        Some(Decoded { out: seq![GeStep::Strip(grad_verts(words, at))], next: at + 6, areas })
    } else if words[at] == OP_TRI && at + 7 <= n {
        let count = records(words, at, OP_TRI, 7, None);
        Some(
            Decoded {
                out: seq![GeStep::Triangles(tri_verts(words, at, count))],
                next: at + 7 * count,
                areas,
            },
        )
    } else if words[at] == OP_GLYPH_RUN && at + 3 <= n {
        let next = at + 3 + 2 * (words[at + 1] as int / 0x1_0000);
        if next > n {
            None
        } else {
            Some(Decoded { out: glyph_run_step(words, at, atlases, fallback), next, areas })
        }
    } else if words[at] == OP_TEX_QUAD && at + 9 <= n {
        let handle = words[at + 1];
        let count = records(words, at, OP_TEX_QUAD, 9, Some(handle));
        Some(
            Decoded {
                out: if resolves(slots, handle as i32 as int) is Some {
                    seq![GeStep::TexSprites(handle as i32, quad_verts(words, at, count))]
                } else {
                    Seq::empty()
                },
                next: at + 9 * count,
                areas,
            },
        )
    } else if words[at] == OP_TEX_TRI && at + 12 <= n {
        let handle = words[at + 1];
        let count = records(words, at, OP_TEX_TRI, 12, Some(handle));
        Some(
            Decoded {
                out: if resolves(slots, handle as i32 as int) is Some {
                    seq![GeStep::TexTriangles(handle as i32, tex_tri_verts(words, at, count))]
                } else {
                    Seq::empty()
                },
                next: at + 12 * count,
                areas,
            },
        )
    } else if words[at] == OP_SCISSOR && at + 3 <= n {
        let area = area_at(words, at);
        Some(Decoded { out: seq![area_step(area)], next: at + 3, areas: areas.push(area) })
    } else if words[at] == OP_SCISSOR_POP {
        Some(
            Decoded {
                out: seq![area_step(area_below(areas))],
                next: at + 1,
                areas: if areas.len() > 0 {
                    areas.drop_last()
                } else {
                    areas
                },
            },
        )
    } else if words[at] == OP_SURFACE_QUAD && at + 9 <= n {
        Some(Decoded { out: Seq::empty(), next: at + 9, areas })
    } else {
        None
    }
}

/// The commands for the operations from `at` on.
pub open spec fn decode_from(
    words: Seq<u32>,
    at: int,
    areas: Seq<Area>,
    slots: Seq<SlotModel>,
    atlases: Seq<Option<Atlas>>,
    fallback: bool,
) -> Seq<GeStep>
    decreases words.len() - at,
{
    match decode_op(words, at, areas, slots, atlases, fallback) {
        None => Seq::empty(),
        Some(d) => if at < d.next <= words.len() {
            d.out + decode_from(words, d.next, d.areas, slots, atlases, fallback)
        } else {
            Seq::empty()
        },
    }
}

/// The commands of one pass over a draw list.
pub open spec fn pass(
    words: Seq<u32>,
    slots: Seq<SlotModel>,
    atlases: Seq<Option<Atlas>>,
    fallback: bool,
) -> Seq<GeStep> {
    seq![GeStep::Begin] + decode_from(words, 0, Seq::empty(), slots, atlases, fallback) + seq![
        GeStep::End,
    ]
}

/// Records counted lie inside the list.
pub proof fn lemma_records_inside(
    words: Seq<u32>,
    at: int,
    op: u32,
    stride: int,
    texture: Option<u32>,
)
    requires
        0 <= at <= words.len(),
        stride >= 1,
    ensures
        at + stride * records(words, at, op, stride, texture) <= words.len(),
        at + stride <= words.len() && is_record(words, at, op, texture) ==> records(
            words,
            at,
            op,
            stride,
            texture,
        ) >= 1,
    decreases words.len() - at,
{
    let k = records(words, at, op, stride, texture);
    if at + stride <= words.len() && is_record(words, at, op, texture) {
        lemma_records_inside(words, at + stride, op, stride, texture);
        let r = records(words, at + stride, op, stride, texture);
        assert(stride * (1 + r) == stride + stride * r) by (nonlinear_arith);
    } else {
        assert(stride * 0 == 0) by (nonlinear_arith);
    }
}

// ---- execution ------------------------------------------------------------------------

fn record_here(words: &[u32], at: usize, op: u32, texture: Option<u32>) -> (r: bool)
    requires
        at + 2 <= words@.len(),
    ensures
        r == is_record(words@, at as int, op, texture),
{
    let n: usize = words.len();
    words[at] == op && match texture {
        Some(t) => words[at + 1] == t,
        None => true,
    }
}

/// Counts the records of one sort from `at` on.
fn count_records(
    words: &[u32],
    at: usize,
    op: u32,
    stride: usize,
    texture: Option<u32>,
) -> (count: usize)
    requires
        at <= words@.len(),
        2 <= stride <= 16,
    ensures
        count == records(words@, at as int, op, stride as int, texture),
        at + stride * count <= words@.len(),
{
    let n: usize = words.len();
    let mut count: usize = 0;
    let mut end: usize = at;
    proof {
        assert(stride * 0 == 0) by (nonlinear_arith);
    }
    while n - end >= stride && record_here(words, end, op, texture)
        invariant
            n == words@.len(),
            at <= end <= n,
            2 <= stride <= 16,
            end == at + stride * count,
            count <= end,
            count + records(words@, end as int, op, stride as int, texture) == records(
                words@,
                at as int,
                op,
                stride as int,
                texture,
            ),
        decreases n - end,
    {
        proof {
            assert(stride * (count + 1) == stride * count + stride) by (nonlinear_arith);
        }
        end = end + stride;
        count = count + 1;
    }
    count
}

fn near_corner(word: u32, color: u32) -> (v: VertC)
    ensures
        v == near(word, color),
{
    let (x, y) = xy(word);
    VertC { color, x, y }
}

fn far_corner(pos: u32, size: u32, color: u32) -> (v: VertC)
    ensures
        v == far(pos, size, color),
{
    let (x, y) = xy(pos);
    let (w, h) = wh(size);
    VertC { color, x: to_i16(x as i32 + w), y: to_i16(y as i32 + h) }
}

fn rect_batch(words: &[u32], at: usize, count: usize) -> (v: Vec<VertC>)
    requires
        at + 4 * count <= words@.len(),
    ensures
        v@ == rect_verts(words@, at as int, count as nat),
{
    let n: usize = words.len();
    let mut v: Vec<VertC> = Vec::new();
    let mut k: usize = 0;
    while k < count
        invariant
            k <= count,
            n == words@.len(),
            at + 4 * count <= n,
            v@ == rect_verts(words@, at as int, k as nat),
        decreases count - k,
    {
        let o: usize = at + 4 * k;
        v.push(near_corner(words[o + 1], words[o + 3]));
        v.push(far_corner(words[o + 1], words[o + 2], words[o + 3]));
        proof {
            assert(v@ =~= rect_verts(words@, at as int, (k + 1) as nat));
        }
        k = k + 1;
    }
    v
}

fn tri_batch(words: &[u32], at: usize, count: usize) -> (v: Vec<VertC>)
    requires
        at + 7 * count <= words@.len(),
    ensures
        v@ == tri_verts(words@, at as int, count as nat),
{
    let n: usize = words.len();
    let mut v: Vec<VertC> = Vec::new();
    let mut k: usize = 0;
    while k < count
        invariant
            k <= count,
            n == words@.len(),
            at + 7 * count <= n,
            v@ == tri_verts(words@, at as int, k as nat),
        decreases count - k,
    {
        let o: usize = at + 7 * k;
        v.push(near_corner(words[o + 1], words[o + 4]));
        v.push(near_corner(words[o + 2], words[o + 5]));
        v.push(near_corner(words[o + 3], words[o + 6]));
        proof {
            assert(v@ =~= tri_verts(words@, at as int, (k + 1) as nat));
        }
        k = k + 1;
    }
    v
}

fn grad_strip(words: &[u32], at: usize) -> (v: Vec<VertC>)
    requires
        at + 6 <= words@.len(),
    ensures
        v@ == grad_verts(words@, at as int),
{
    let n: usize = words.len();
    let from: u32 = words[at + 3];
    let to: u32 = words[at + 4];
    let dir: u32 = words[at + 5];
    let (tl, tr, bl, br): (u32, u32, u32, u32) = if dir == GRAD_TO_TOP {
        (to, to, from, from)
    } else if dir == GRAD_TO_LEFT {
        (to, from, to, from)
    } else if dir == GRAD_TO_RIGHT {
        (from, to, from, to)
    } else {
        (from, from, to, to)
    };
    let a = near_corner(words[at + 1], 0);
    let b = far_corner(words[at + 1], words[at + 2], 0);
    let mut v: Vec<VertC> = Vec::new();
    v.push(VertC { color: tl, x: a.x, y: a.y });
    v.push(VertC { color: tr, x: b.x, y: a.y });
    v.push(VertC { color: bl, x: a.x, y: b.y });
    v.push(VertC { color: br, x: b.x, y: b.y });
    proof {
        assert(v@ =~= grad_verts(words@, at as int));
    }
    v
}

fn quad_batch(words: &[u32], at: usize, count: usize) -> (v: Vec<VertUv>)
    requires
        at + 9 * count <= words@.len(),
    ensures
        v@ == quad_verts(words@, at as int, count as nat),
{
    let n: usize = words.len();
    let mut v: Vec<VertUv> = Vec::new();
    let mut k: usize = 0;
    while k < count
        invariant
            k <= count,
            n == words@.len(),
            at + 9 * count <= n,
            v@ == quad_verts(words@, at as int, k as nat),
        decreases count - k,
    {
        let o: usize = at + 9 * k;
        let color: u32 = words[o + 8];
        let a = near_corner(words[o + 2], color);
        let b = far_corner(words[o + 2], words[o + 3], color);
        v.push(VertUv { u: words[o + 4], v: words[o + 5], color, x: a.x, y: a.y });
        v.push(VertUv { u: words[o + 6], v: words[o + 7], color, x: b.x, y: b.y });
        proof {
            assert(v@ =~= quad_verts(words@, at as int, (k + 1) as nat));
        }
        k = k + 1;
    }
    v
}

fn tex_tri_corner(words: &[u32], at: usize, color: u32) -> (v: VertUv)
    requires
        at + 3 <= words@.len(),
    ensures
        v == (VertUv {
            u: words@[at + 1],
            v: words@[at + 2],
            color,
            x: x_of(words@[at as int]) as i16,
            y: y_of(words@[at as int]) as i16,
        }),
{
    let n: usize = words.len();
    let (x, y) = xy(words[at]);
    VertUv { u: words[at + 1], v: words[at + 2], color, x, y }
}

fn tex_tri_batch(words: &[u32], at: usize, count: usize) -> (v: Vec<VertUv>)
    requires
        at + 12 * count <= words@.len(),
    ensures
        v@ == tex_tri_verts(words@, at as int, count as nat),
{
    let n: usize = words.len();
    let mut v: Vec<VertUv> = Vec::new();
    let mut k: usize = 0;
    while k < count
        invariant
            k <= count,
            n == words@.len(),
            at + 12 * count <= n,
            v@ == tex_tri_verts(words@, at as int, k as nat),
        decreases count - k,
    {
        let o: usize = at + 12 * k;
        let color: u32 = words[o + 11];
        v.push(tex_tri_corner(words, o + 2, color));
        v.push(tex_tri_corner(words, o + 5, color));
        v.push(tex_tri_corner(words, o + 8, color));
        proof {
            assert(v@ =~= tex_tri_verts(words@, at as int, (k + 1) as nat));
        }
        k = k + 1;
    }
    v
}

/// Corners of the glyphs of a run, from the coverage texture of the atlas.
fn glyph_sprite_batch(
    words: &[u32],
    body: usize,
    count: usize,
    color: u32,
    atlas: &Atlas,
    cols: u32,
) -> (v: Vec<VertTC>)
    requires
        atlas.wf(),
        cols > 0,
        body + 2 * count <= words@.len(),
        atlas.cov_w() <= 512,
        atlas.cov_h() <= 512,
    ensures
        v@ == glyph_sprites(words@, body as int, 0, count as int, color, *atlas, cols as int),
{
    let n: usize = words.len();
    let cov_w: u32 = atlas.coverage_width();
    let cov_h: u32 = atlas.coverage_height();
    let mut v: Vec<VertTC> = Vec::new();
    let mut g: usize = 0;
    let ghost all = glyph_sprites(words@, body as int, 0, count as int, color, *atlas, cols as int);
    proof {
        assert(v@ + all =~= all);
    }
    while g < count
        invariant
            atlas.wf(),
            cols > 0,
            cov_w == atlas.cov_w() <= 512,
            cov_h == atlas.cov_h() <= 512,
            g <= count,
            n == words@.len(),
            body + 2 * count <= n,
            v@ + glyph_sprites(
                words@,
                body as int,
                g as int,
                count as int,
                color,
                *atlas,
                cols as int,
            ) == all,
        decreases count - g,
    {
        let pos: u32 = words[body + 2 * g];
        let gid: u32 = words[body + 2 * g + 1] % 0x1_0000;
        let ghost before = v@;
        let ghost rest = glyph_sprites(
            words@,
            body as int,
            g + 1,
            count as int,
            color,
            *atlas,
            cols as int,
        );
        if gid < atlas.glyph_count as u32 {
            let (x, y) = xy(pos);
            proof {
                assert(gid % cols <= gid && gid / cols <= gid) by (nonlinear_arith)
                    requires
                        cols > 0,
                ;
                lemma_mul_bounds((gid % cols) as int, cov_w as int, 0xffff, 512);
                lemma_mul_bounds((gid / cols) as int, cov_h as int, 0xffff, 512);
            }
            let sx: u32 = (gid % cols) * cov_w;
            let sy: u32 = (gid / cols) * cov_h;
            v.push(VertTC { u: to_i16(sx as i32), v: to_i16(sy as i32), color, x, y });
            v.push(
                VertTC {
                    u: to_i16((sx + cov_w) as i32),
                    v: to_i16((sy + cov_h) as i32),
                    color,
                    x: to_i16(x as i32 + atlas.cell_w as i32),
                    y: to_i16(y as i32 + atlas.cell_h as i32),
                },
            );
            proof {
                let two = glyph_sprite(pos, gid as int, color, *atlas, cols as int);
                assert(v@ =~= before + two);
                assert(before + (two + rest) =~= v@ + rest);
            }
        }
        g = g + 1;
    }
    proof {
        assert(v@ =~= all);
    }
    v
}

/// Appends the corners of the runs of one glyph.
fn push_cell(v: &mut Vec<VertC>, atlas: &Atlas, gid: u16, pos: u32, color: u32)
    requires
        atlas.wf(),
        gid < atlas.glyph_count,
    ensures
        final(v)@ == old(v)@ + cell_verts(*atlas, gid as int, pos, 0, color),
{
    let (gx, gy) = xy(pos);
    let ghost all = old(v)@ + cell_verts(*atlas, gid as int, pos, 0, color);
    let mut y: u32 = 0;
    while y < atlas.cell_h
        invariant
            atlas.wf(),
            gid < atlas.glyph_count,
            gx == x_of(pos),
            gy == y_of(pos),
            y <= atlas.cell_h,
            v@ + cell_verts(*atlas, gid as int, pos, y as int, color) == all,
        decreases atlas.cell_h - y,
    {
        let ghost row = glyph_row(*atlas, gid as int, y as int, color);
        let ghost start_v = v@;
        let ghost line = run_verts(row_runs(row, 0), pos, y as int, color);
        let mut x: u32 = 0;
        proof {
            assert(v@ + line =~= start_v + line);
        }
        while x < atlas.cell_w
            invariant
                atlas.wf(),
                gid < atlas.glyph_count,
                gx == x_of(pos),
                gy == y_of(pos),
                y < atlas.cell_h,
                x <= atlas.cell_w,
                row == glyph_row(*atlas, gid as int, y as int, color),
                v@ + run_verts(row_runs(row, x as int), pos, y as int, color) == start_v + line,
            decreases atlas.cell_w - x,
        {
            let a: u8 = glyph_alpha(color, atlas.logical_coverage(gid, x, y));
            proof {
                assert(row[x as int] == a);
            }
            if a == 0 {
                x = x + 1;
            } else {
                let start: u32 = x;
                let ghost end = run_end(row, start as int, a);
                proof {
                    lemma_run_end(row, start as int, a);
                }
                while x < atlas.cell_w && glyph_alpha(color, atlas.logical_coverage(gid, x, y)) == a
                    invariant
                        atlas.wf(),
                        gid < atlas.glyph_count,
                        y < atlas.cell_h,
                        start <= x <= atlas.cell_w,
                        row == glyph_row(*atlas, gid as int, y as int, color),
                        run_end(row, x as int, a) == end,
                    decreases atlas.cell_w - x,
                {
                    proof {
                        assert(row[x as int] == a);
                    }
                    x = x + 1;
                }
                proof {
                    if x < atlas.cell_w {
                        assert(row[x as int] != a);
                    }
                    assert(end == x);
                }
                let ghost before = v@;
                let shade: u32 = with_alpha(color, a);
                let left: i32 = gx as i32 + start as i32;
                let top: i32 = gy as i32 + y as i32;
                v.push(VertC { color: shade, x: to_i16(left), y: to_i16(top) });
                v.push(
                    VertC {
                        color: shade,
                        x: to_i16(left + (x - start) as i32),
                        y: to_i16(top + 1),
                    },
                );
                proof {
                    let run = Run { start: start as int, end: x as int, alpha: a };
                    let rest = row_runs(row, x as int);
                    let runs = row_runs(row, start as int);
                    assert(runs =~= seq![run] + rest);
                    let now = run_verts(runs, pos, y as int, color);
                    let later = run_verts(rest, pos, y as int, color);
                    assert(v@ =~= before.push(now[0]).push(now[1]));
                    assert forall|j: int| 0 <= j < later.len() implies #[trigger] later[j] == now[j
                        + 2] by {
                        assert(runs[(j + 2) / 2] == rest[j / 2]);
                    }
                    assert(now =~= seq![now[0], now[1]] + later);
                    assert(before + now =~= v@ + later);
                }
            }
        }
        proof {
            let after = cell_verts(*atlas, gid as int, pos, y + 1, color);
            assert(row_runs(row, x as int) =~= Seq::<Run>::empty());
            assert(v@ =~= start_v + line);
            assert(start_v + (line + after) =~= v@ + after);
        }
        y = y + 1;
    }
    proof {
        assert(v@ =~= all);
    }
}

/// Number of runs of the glyphs `g..count`.
pub open spec fn rect_count(
    words: Seq<u32>,
    body: int,
    g: int,
    count: int,
    color: u32,
    atlas: Atlas,
) -> nat
    decreases count - g,
{
    if g >= count {
        0
    } else {
        let gid = glyph_at(words, body, g);
        let rest = rect_count(words, body, g + 1, count, color, atlas);
        if gid < atlas.glyph_count {
            glyph_runs(atlas, gid, 0, color) + rest
        } else {
            rest
        }
    }
}

proof fn lemma_cell_len(atlas: Atlas, gid: int, xy: u32, y: int, color: u32)
    requires
        0 <= y,
    ensures
        cell_verts(atlas, gid, xy, y, color).len() == 2 * glyph_runs(atlas, gid, y, color),
    decreases atlas.cell_h - y,
{
    if y < atlas.cell_h {
        lemma_cell_len(atlas, gid, xy, y + 1, color);
    }
}

/// Counting the runs of the glyphs beforehand gives half the number of corners
/// drawn for them.
pub proof fn law_run_count_sizes_batch(
    words: Seq<u32>,
    body: int,
    g: int,
    count: int,
    color: u32,
    atlas: Atlas,
)
    ensures
        glyph_rects(words, body, g, count, color, atlas).len() == 2 * rect_count(
            words,
            body,
            g,
            count,
            color,
            atlas,
        ),
    decreases count - g,
{
    if g < count {
        law_run_count_sizes_batch(words, body, g + 1, count, color, atlas);
        lemma_cell_len(atlas, glyph_at(words, body, g), words[body + 2 * g], 0, color);
    }
}

/// Counts the runs of the glyphs of a run.
fn count_rects(words: &[u32], body: usize, count: usize, color: u32, atlas: &Atlas) -> (rects: usize)
    requires
        atlas.wf(),
        body + 2 * count <= words@.len(),
        count <= 0xffff,
    ensures
        rects == rect_count(words@, body as int, 0, count as int, color, *atlas),
{
    let n: usize = words.len();
    let mut rects: usize = 0;
    let mut g: usize = 0;
    while g < count
        invariant
            atlas.wf(),
            g <= count <= 0xffff,
            n == words@.len(),
            body + 2 * count <= n,
            rects <= g * 65025,
            rects + rect_count(words@, body as int, g as int, count as int, color, *atlas)
                == rect_count(words@, body as int, 0, count as int, color, *atlas),
        decreases count - g,
    {
        let gid: u32 = words[body + 2 * g + 1] % 0x1_0000;
        if gid < atlas.glyph_count as u32 {
            rects = rects + count_glyph_runs(atlas, gid as u16, color);
        }
        g = g + 1;
    }
    rects
}

/// Corners of the runs of the glyphs of a run.
fn glyph_rect_batch(words: &[u32], body: usize, count: usize, color: u32, atlas: &Atlas) -> (v: Vec<
    VertC,
>)
    requires
        atlas.wf(),
        body + 2 * count <= words@.len(),
        count <= 0xffff,
    ensures
        v@ == glyph_rects(words@, body as int, 0, count as int, color, *atlas),
{
    let n: usize = words.len();
    let rects: usize = count_rects(words, body, count, color, atlas);
    let mut v: Vec<VertC> = Vec::new();
    let ghost all = glyph_rects(words@, body as int, 0, count as int, color, *atlas);
    proof {
        law_run_count_sizes_batch(words@, body as int, 0, count as int, color, *atlas);
        assert(v@ + all =~= all);
    }
    if rects == 0 {
        return v;
    }
    let mut g: usize = 0;
    while g < count
        invariant
            atlas.wf(),
            g <= count,
            n == words@.len(),
            body + 2 * count <= n,
            v@ + glyph_rects(words@, body as int, g as int, count as int, color, *atlas) == all,
        decreases count - g,
    {
        let pos: u32 = words[body + 2 * g];
        let gid: u32 = words[body + 2 * g + 1] % 0x1_0000;
        let ghost before = v@;
        if gid < atlas.glyph_count as u32 {
            push_cell(&mut v, atlas, gid as u16, pos, color);
            proof {
                let cell = cell_verts(*atlas, gid as int, pos, 0, color);
                let rest = glyph_rects(words@, body as int, g + 1, count as int, color, *atlas);
                assert(before + (cell + rest) =~= v@ + rest);
            }
        }
        g = g + 1;
    }
    proof {
        assert(v@ =~= all);
    }
    v
}

proof fn lemma_steps_push(cmds: Seq<GeCmd>, c: GeCmd)
    ensures
        steps(cmds.push(c)) == steps(cmds).push(c@),
        steps(cmds.push(c)) == steps(cmds) + seq![c@],
{
    assert(steps(cmds.push(c)) =~= steps(cmds).push(c@));
    assert(steps(cmds.push(c)) =~= steps(cmds) + seq![c@]);
}

fn push_cmd(out: &mut Vec<GeCmd>, c: GeCmd)
    ensures
        steps(final(out)@) == steps(old(out)@) + seq![c@],
{
    proof {
        lemma_steps_push(out@, c);
    }
    out.push(c);
}

/// Every atlas is complete.
pub open spec fn atlases_wf(atlases: Seq<Option<Atlas>>) -> bool {
    forall|i: int|
        #![trigger atlases[i]]
        0 <= i < atlases.len() && atlases[i] is Some ==> atlases[i]->0.wf()
}

/// The columns of the coverage texture of an atlas, when it has one.
fn atlas_cols(atlas: &Atlas, fallback: bool) -> (r: Option<u32>)
    requires
        atlas.wf(),
    ensures
        r is Some <==> sprite_cols(*atlas, fallback) is Some,
        r is Some ==> r->0 == sprite_cols(*atlas, fallback)->0 && r->0 > 0 && atlas.cov_w() <= 512
            && atlas.cov_h() <= 512,
{
    if fallback || atlas.slot as usize >= MAX_FONT_SLOTS {
        return None;
    }
    match font_grid(atlas) {
        Some((cols, _tex_w, _tex_h)) => {
            proof {
                crate::font::lemma_grid_bounds(
                    atlas.glyph_count as int,
                    atlas.cov_w(),
                    atlas.cov_h(),
                );
            }
            Some(cols)
        },
        None => None,
    }
}

/// Decodes a glyph run.
fn push_glyph_run(
    out: &mut Vec<GeCmd>,
    words: &[u32],
    at: usize,
    atlases: &[Option<Atlas>],
    fallback: bool,
)
    requires
        atlases_wf(atlases@),
        at + 3 + 2 * (words@[at + 1] as int / 0x1_0000) <= words@.len(),
    ensures
        steps(final(out)@) == steps(old(out)@) + glyph_run_step(
            words@,
            at as int,
            atlases@,
            fallback,
        ),
{
    let n: usize = words.len();
    let slot: usize = (words[at + 1] % 0x100) as usize;
    let count: usize = (words[at + 1] / 0x1_0000) as usize;
    let color: u32 = words[at + 2];
    if slot < atlases.len() {
        match &atlases[slot] {
            Some(atlas) => {
                match atlas_cols(atlas, fallback) {
                    Some(cols) => {
                        let v = glyph_sprite_batch(words, at + 3, count, color, atlas, cols);
                        push_cmd(out, GeCmd::GlyphSprites(slot as u8, v));
                    },
                    None => {
                        let v = glyph_rect_batch(words, at + 3, count, color, atlas);
                        push_cmd(out, GeCmd::GlyphRects(v));
                    },
                }
                return;
            },
            None => {},
        }
    }
    proof {
        assert(steps(out@) + Seq::<GeStep>::empty() =~= steps(out@));
    }
}

/// Decodes the operation at `at` and returns the position after it.
fn decode_one(
    out: &mut Vec<GeCmd>,
    areas: &mut Vec<Area>,
    words: &[u32],
    at: usize,
    slots: &[TexSlot],
    atlases: &[Option<Atlas>],
    fallback: bool,
) -> (next: Option<usize>)
    requires
        atlases_wf(atlases@),
    ensures
        match decode_op(
            words@,
            at as int,
            old(areas)@,
            slot_models(slots@),
            atlases@,
            fallback,
        ) {
            None => next is None && steps(final(out)@) == steps(old(out)@),
            Some(d) => {
                &&& next is Some
                &&& next->0 == d.next
                &&& at < d.next <= words@.len()
                &&& steps(final(out)@) == steps(old(out)@) + d.out
                &&& final(areas)@ == d.areas
            },
        },
{
    proof {
        reveal(decode_op);
    }
    let n: usize = words.len();
    if at >= n {
        return None;
    }
    let op: u32 = words[at];
    let left: usize = n - at;
    proof {
        assert(steps(out@) + Seq::<GeStep>::empty() =~= steps(out@));
        lemma_records_inside(words@, at as int, OP_RECT, 4, None);
        lemma_records_inside(words@, at as int, OP_TRI, 7, None);
        if left > 1 {
            lemma_records_inside(words@, at as int, OP_TEX_QUAD, 9, Some(words@[at + 1]));
            lemma_records_inside(words@, at as int, OP_TEX_TRI, 12, Some(words@[at + 1]));
        }
    }
    if op == OP_RECT && left >= 4 {
        let count: usize = count_records(words, at, OP_RECT, 4, None);
        let v = rect_batch(words, at, count);
        push_cmd(out, GeCmd::Sprites(v));
        Some(at + 4 * count)
    } else if op == OP_GRAD_RECT && left >= 6 {
        let v = grad_strip(words, at);
        push_cmd(out, GeCmd::Strip(v));
        Some(at + 6)
    } else if op == OP_TRI && left >= 7 {
        let count: usize = count_records(words, at, OP_TRI, 7, None);
        let v = tri_batch(words, at, count);
        push_cmd(out, GeCmd::Triangles(v));
        Some(at + 7 * count)
    } else if op == OP_GLYPH_RUN && left >= 3 {
        let count: usize = (words[at + 1] / 0x1_0000) as usize;
        if left - 3 < 2 * count {
            return None;
        }
        push_glyph_run(out, words, at, atlases, fallback);
        Some(at + 3 + 2 * count)
    } else if op == OP_TEX_QUAD && left >= 9 {
        let word: u32 = words[at + 1];
        let count: usize = count_records(words, at, OP_TEX_QUAD, 9, Some(word));
        if tex_resolve(slots, word as i32).is_some() {
            let v = quad_batch(words, at, count);
            push_cmd(out, GeCmd::TexSprites(word as i32, v));
        }
        Some(at + 9 * count)
    } else if op == OP_TEX_TRI && left >= 12 {
        let word: u32 = words[at + 1];
        let count: usize = count_records(words, at, OP_TEX_TRI, 12, Some(word));
        if tex_resolve(slots, word as i32).is_some() {
            let v = tex_tri_batch(words, at, count);
            push_cmd(out, GeCmd::TexTriangles(word as i32, v));
        }
        Some(at + 12 * count)
    } else if op == OP_SCISSOR && left >= 3 {
        let (x, y) = xy(words[at + 1]);
        let (w, h) = wh(words[at + 2]);
        let area: Area = (x as i32, y as i32, x as i32 + w, y as i32 + h);
        areas.push(area);
        push_cmd(out, GeCmd::Scissor(area.0, area.1, area.2, area.3));
        Some(at + 3)
    } else if op == OP_SCISSOR_POP {
        let _ = areas.pop();
        let area: Area = if areas.len() > 0 {
            areas[areas.len() - 1]
        } else {
            (0, 0, SCREEN_W as i32, SCREEN_H as i32)
        };
        push_cmd(out, GeCmd::Scissor(area.0, area.1, area.2, area.3));
        Some(at + 1)
    } else if op == OP_SURFACE_QUAD && left >= 9 {
        Some(at + 9)
    } else {
        None
    }
}

/// The commands of one pass over a draw list, without a clear. `fallback`
/// draws text without coverage textures.
pub fn render_over(
    slots: &[TexSlot],
    atlases: &[Option<Atlas>],
    words: &[u32],
    fallback: bool,
) -> (cmds: Vec<GeCmd>)
    requires
        atlases_wf(atlases@),
    ensures
        steps(cmds@) == pass(words@, slot_models(slots@), atlases@, fallback),
{
    let ghost models = slot_models(slots@);
    let ghost all = seq![GeStep::Begin] + decode_from(
        words@,
        0,
        Seq::empty(),
        models,
        atlases@,
        fallback,
    );
    let mut cmds: Vec<GeCmd> = Vec::new();
    push_cmd(&mut cmds, GeCmd::Begin);
    let mut areas: Vec<Area> = Vec::new();
    let mut at: usize = 0;
    let mut more: bool = true;
    proof {
        assert(steps(cmds@) =~= seq![GeStep::Begin]);
    }
    while more
        invariant
            atlases_wf(atlases@),
            models == slot_models(slots@),
            at <= words@.len(),
            more ==> steps(cmds@) + decode_from(
                words@,
                at as int,
                areas@,
                models,
                atlases@,
                fallback,
            ) == all,
            !more ==> steps(cmds@) == all,
        decreases words@.len() - at + (if more {
            1int
        } else {
            0
        }),
    {
        let ghost before = steps(cmds@);
        let ghost held = areas@;
        let ghost from = at as int;
        match decode_one(&mut cmds, &mut areas, words, at, slots, atlases, fallback) {
            Some(next) => {
                proof {
                    let d = decode_op(words@, from, held, models, atlases@, fallback)->0;
                    let rest = decode_from(words@, d.next, d.areas, models, atlases@, fallback);
                    assert(before + (d.out + rest) =~= steps(cmds@) + rest);
                }
                at = next;
            },
            None => {
                proof {
                    assert(before + Seq::<GeStep>::empty() =~= steps(cmds@));
                }
                more = false;
            },
        }
    }
    push_cmd(&mut cmds, GeCmd::End);
    cmds
}

/// Colour of what no operation paints: opaque black.
pub const CLEAR_COLOR: u32 = 0xff00_0000;

/// The commands of one frame: a clear, so that no old picture shows through,
/// and then a pass over the draw list.
pub fn render(
    slots: &[TexSlot],
    atlases: &[Option<Atlas>],
    words: &[u32],
    fallback: bool,
) -> (cmds: Vec<GeCmd>)
    requires
        atlases_wf(atlases@),
    ensures
        steps(cmds@) == seq![GeStep::Clear(CLEAR_COLOR)] + pass(
            words@,
            slot_models(slots@),
            atlases@,
            fallback,
        ),
{
    let mut cmds: Vec<GeCmd> = Vec::new();
    cmds.push(GeCmd::Clear(CLEAR_COLOR));
    let mut rest = render_over(slots, atlases, words, fallback);
    let ghost said = steps(rest@);
    cmds.append(&mut rest);
    proof {
        assert(steps(cmds@) =~= seq![GeStep::Clear(CLEAR_COLOR)] + said);
    }
    cmds
}

/// A pass begins with `Begin` and ends with `End`, and neither occurs between
/// them: the state of the engine is set up once and given back once. It clears
/// nothing, so that it can be drawn over what is there.
pub proof fn law_pass_is_bracketed(
    words: Seq<u32>,
    slots: Seq<SlotModel>,
    atlases: Seq<Option<Atlas>>,
    fallback: bool,
)
    ensures
        ({
            let p = pass(words, slots, atlases, fallback);
            &&& p.len() >= 2
            &&& p[0] == GeStep::Begin
            &&& p.last() == GeStep::End
            &&& forall|i: int|
                0 < i < p.len() - 1 ==> !(#[trigger] p[i] is Begin) && !(p[i] is End)
            &&& forall|i: int| 0 <= i < p.len() ==> !(#[trigger] p[i] is Clear)
        }),
{
    lemma_decode_plain(words, 0, Seq::empty(), slots, atlases, fallback);
    let p = pass(words, slots, atlases, fallback);
    let inner = decode_from(words, 0, Seq::empty(), slots, atlases, fallback);
    assert forall|i: int| 0 < i < p.len() - 1 implies !(#[trigger] p[i] is Begin) && !(
    p[i] is End) && !(p[i] is Clear) by {
        assert(p[i] == inner[i - 1]);
    }
}

proof fn lemma_decode_plain(
    words: Seq<u32>,
    at: int,
    areas: Seq<Area>,
    slots: Seq<SlotModel>,
    atlases: Seq<Option<Atlas>>,
    fallback: bool,
)
    ensures
        forall|i: int|
            #![trigger decode_from(words, at, areas, slots, atlases, fallback)[i]]
            0 <= i < decode_from(words, at, areas, slots, atlases, fallback).len() ==> {
                let step = decode_from(words, at, areas, slots, atlases, fallback)[i];
                !(step is Begin) && !(step is End) && !(step is Clear)
            },
    decreases words.len() - at,
{
    reveal(decode_op);
    let whole = decode_from(words, at, areas, slots, atlases, fallback);
    match decode_op(words, at, areas, slots, atlases, fallback) {
        None => {},
        Some(d) => if at < d.next <= words.len() {
            lemma_decode_plain(words, d.next, d.areas, slots, atlases, fallback);
            let rest = decode_from(words, d.next, d.areas, slots, atlases, fallback);
            assert forall|i: int| #![trigger whole[i]] 0 <= i < whole.len() implies !(
            whole[i] is Begin) && !(whole[i] is End) && !(whole[i] is Clear) by {
                if i >= d.out.len() {
                    assert(whole[i] == rest[i - d.out.len()]);
                }
            }
        },
    }
}

/// Popping the last drawing area gives the whole screen back.
pub proof fn law_matched_scissors_restore(areas: Seq<Area>, area: Area)
    ensures
        area_below(areas.push(area)) == (if areas.len() > 0 {
            areas.last()
        } else {
            full_screen()
        }),
        areas.push(area).drop_last() == areas,
{
    assert(areas.push(area).drop_last() =~= areas);
}

// ---- samplers --------------------------------------------------------------------------

/// How the engine samples a texture.
#[derive(Clone, Copy, PartialEq, Eq, Debug)]
pub struct Sampler {
    /// Pixel format.
    pub psm: u32,
    /// A table of colours goes with it.
    pub table: bool,
    pub w: u32,
    pub h: u32,
    /// Between texels colours are mixed; else the nearest texel counts.
    pub linear: bool,
}

/// How a texture is sampled. A format that the engine does not know is taken
/// for 32-bit colours.
pub fn apply_texture(view: &TexView<'_>) -> (s: Sampler)
    ensures
        s.psm == (if view.psm == PSM_T8 || view.psm == PSM_5650 || view.psm == PSM_4444 {
            view.psm
        } else {
            PSM_8888
        }),
        s.table <==> view.psm == PSM_T8 && view.palette is Some,
        s.w == view.w,
        s.h == view.h,
        s.linear == view.linear,
{
    let known: bool = view.psm == PSM_T8 || view.psm == PSM_5650 || view.psm == PSM_4444;
    Sampler {
        psm: if known {
            view.psm
        } else {
            PSM_8888
        },
        table: view.psm == PSM_T8 && view.palette.is_some(),
        w: view.w,
        h: view.h,
        linear: view.linear,
    }
}

/// How a coverage texture is sampled: exactly where it has one sample for each
/// pixel, and mixed where it has more.
pub fn apply_font_texture(tex: &FontTexture) -> (s: Sampler)
    ensures
        s == (Sampler {
            psm: PSM_4444,
            table: false,
            w: tex.tex_w,
            h: tex.tex_h,
            linear: tex.raster_density != 1,
        }),
{
    Sampler {
        psm: PSM_4444,
        table: false,
        w: tex.tex_w,
        h: tex.tex_h,
        linear: tex.raster_density != 1,
    }
}

// ---- draw calls -----------------------------------------------------------------------

/// Most vertices in one draw call: the engine counts them in 16 bits, and this
/// number is whole in pairs and in triples.
pub const MAX_PRIM_VERTS: u32 = 65532;

/// The draw calls for `count` vertices from `first` on: first vertex and count.
pub open spec fn chunks(first: int, count: int) -> Seq<(int, int)>
    decreases count,
{
    if count <= 0 {
        Seq::empty()
    } else if count <= MAX_PRIM_VERTS {
        seq![(first, count)]
    } else {
        seq![(first, MAX_PRIM_VERTS as int)] + chunks(
            first + MAX_PRIM_VERTS,
            count - MAX_PRIM_VERTS,
        )
    }
}

/// Splits a batch of `count` vertices into draw calls.
pub fn flush(count: u32) -> (calls: Vec<(u32, u32)>)
    ensures
        calls@.len() == chunks(0, count as int).len(),
        forall|i: int|
            #![trigger calls@[i]]
            0 <= i < calls@.len() ==> (calls@[i].0 as int, calls@[i].1 as int) == chunks(
                0,
                count as int,
            )[i],
{
    let mut calls: Vec<(u32, u32)> = Vec::new();
    let mut done: u32 = 0;
    let ghost all = chunks(0, count as int);
    while done < count
        invariant
            done <= count,
            all == chunks(0, count as int),
            calls@.len() + chunks(done as int, count - done).len() == all.len(),
            forall|i: int|
                #![trigger calls@[i]]
                0 <= i < calls@.len() ==> (calls@[i].0 as int, calls@[i].1 as int) == all[i],
            forall|i: int|
                #![trigger chunks(done as int, count - done)[i]]
                0 <= i < chunks(done as int, count - done).len() ==> chunks(
                    done as int,
                    count - done,
                )[i] == all[calls@.len() + i],
        decreases count - done,
    {
        let n: u32 = if count - done < MAX_PRIM_VERTS {
            count - done
        } else {
            MAX_PRIM_VERTS
        };
        let ghost now = chunks(done as int, count - done);
        let ghost had = calls@.len() as int;
        calls.push((done, n));
        proof {
            assert(now[0] == (done as int, n as int));
            assert(all[had] == now[0]);
            let later = chunks(done + n, count - done - n);
            assert forall|i: int| 0 <= i < later.len() implies #[trigger] later[i] == all[had + 1
                + i] by {
                assert(later[i] == now[i + 1]);
            }
            assert(now.len() == 1 + later.len());
        }
        done = done + n;
    }
    calls
}

/// The draw calls cover the batch without a gap or an overlap, none is larger
/// than the engine can count, and a batch of whole pairs (or triples) is split
/// into whole pairs (or triples).
pub proof fn law_chunks_tile(first: int, count: int, i: int)
    requires
        0 <= i < chunks(first, count).len(),
    ensures
        ({
            let all = chunks(first, count);
            let (at, n) = all[i];
            &&& 1 <= n <= MAX_PRIM_VERTS < 0x1_0000
            &&& at == first + i * MAX_PRIM_VERTS
            &&& i + 1 < all.len() ==> ({
                let (next, _n) = all[i + 1];
                next == at + n
            })
            &&& i + 1 == all.len() ==> at + n == first + count
            &&& count % 2 == 0 ==> n % 2 == 0
            &&& count % 3 == 0 ==> n % 3 == 0
        }),
    decreases count,
{
    if count > MAX_PRIM_VERTS {
        let rest = chunks(first + MAX_PRIM_VERTS, count - MAX_PRIM_VERTS);
        let all = chunks(first, count);
        assert forall|k: int| 0 <= k < rest.len() implies #[trigger] rest[k] == all[k + 1] by {}
        assert(rest.len() > 0);
        if i > 0 {
            law_chunks_tile(first + MAX_PRIM_VERTS, count - MAX_PRIM_VERTS, i - 1);
            assert(all[i] == rest[i - 1]);
            if i + 1 < all.len() {
                assert(all[i + 1] == rest[i]);
            }
        } else {
            law_chunks_tile(first + MAX_PRIM_VERTS, count - MAX_PRIM_VERTS, 0);
            assert(all[1] == rest[0]);
        }
    }
}

} // verus!
