//! Font atlases and the 4-bit coverage textures baked from them.
use crate::arith::{lemma_cell_in_grid, lemma_doubled, lemma_mul_bounds, next_pow2, pow2_ceil};
use crate::constants::{MAX_FONT_SLOTS, TEX_MAX_DIM};
use vstd::prelude::*;

verus! {

/// One font atlas: glyph cells of 8-bit coverage, at raster resolution and at
/// logical resolution.
pub struct Atlas {
    pub slot: u8,
    pub glyph_count: u16,
    /// Logical cell size.
    pub cell_w: u32,
    pub cell_h: u32,
    /// Raster samples per logical pixel along one axis.
    pub raster_density: u8,
    /// Coverage at raster resolution, glyph after glyph, row after row.
    pub bitmap: Vec<u8>,
    /// Coverage of whole logical pixels, in the same order.
    pub logical: Vec<u8>,
}

impl Atlas {
    /// Cells are small and both coverage planes are complete.
    pub open spec fn wf(self) -> bool {
        &&& self.cell_w <= 255
        &&& self.cell_h <= 255
        &&& self.bitmap@.len() == self.glyph_count * (self.cov_w() * self.cov_h())
        &&& self.logical@.len() == self.glyph_count * (self.cell_w * self.cell_h)
    }

    pub open spec fn cov_w(self) -> int {
        self.cell_w * self.raster_density
    }

    pub open spec fn cov_h(self) -> int {
        self.cell_h * self.raster_density
    }

    /// Raster coverage of glyph `gid` at column `x` of row `y`.
    pub open spec fn raster_at(self, gid: int, x: int, y: int) -> u8 {
        self.bitmap@[gid * (self.cov_w() * self.cov_h()) + (y * self.cov_w() + x)]
    }

    /// Logical coverage of glyph `gid` at column `x` of row `y`.
    pub open spec fn coverage_at(self, gid: int, x: int, y: int) -> u8 {
        self.logical@[gid * (self.cell_w * self.cell_h) + (y * self.cell_w + x)]
    }

    /// Width of a glyph cell in raster samples.
    pub fn coverage_width(&self) -> (r: u32)
        requires
            self.wf(),
        ensures
            r == self.cov_w(),
            r <= 65025,
    {
        proof {
            lemma_mul_bounds(self.cell_w as int, self.raster_density as int, 255, 255);
        }
        self.cell_w * self.raster_density as u32
    }

    /// Height of a glyph cell in raster samples.
    pub fn coverage_height(&self) -> (r: u32)
        requires
            self.wf(),
        ensures
            r == self.cov_h(),
            r <= 65025,
    {
        proof {
            lemma_mul_bounds(self.cell_h as int, self.raster_density as int, 255, 255);
        }
        self.cell_h * self.raster_density as u32
    }

    /// Coverage of one raster sample.
    pub fn raster_coverage(&self, gid: u16, x: u32, y: u32) -> (r: u8)
        requires
            self.wf(),
            gid < self.glyph_count,
            x < self.cov_w(),
            y < self.cov_h(),
        ensures
            r == self.raster_at(gid as int, x as int, y as int),
    {
        let w: u32 = self.coverage_width();
        let h: u32 = self.coverage_height();
        let total: usize = self.bitmap.len();
        proof {
            lemma_cell_in_grid(x as int, y as int, w as int, h as int);
            lemma_cell_in_grid(
                y * w + x,
                gid as int,
                w * h,
                self.glyph_count as int,
            );
            lemma_mul_bounds(w as int, h as int, 65025, 65025);
            assert((w * h) * self.glyph_count == self.glyph_count * (w * h)) by (nonlinear_arith);
            assert(gid * (w * h) <= total);
            assert(total == self.bitmap@.len());
            assert(0 <= y * w) by (nonlinear_arith);
            assert(0 <= gid * (w * h)) by (nonlinear_arith)
                requires
                    0 <= w * h,
            ;
            lemma_one_cell(self.glyph_count as int, gid as int, w * h);
        }
        let cell: usize = w as usize * h as usize;
        self.bitmap[gid as usize * cell + (y as usize * w as usize + x as usize)]
    }

    /// Coverage of one logical pixel.
    pub fn logical_coverage(&self, gid: u16, x: u32, y: u32) -> (r: u8)
        requires
            self.wf(),
            gid < self.glyph_count,
            x < self.cell_w,
            y < self.cell_h,
        ensures
            r == self.coverage_at(gid as int, x as int, y as int),
    {
        let w: u32 = self.cell_w;
        let h: u32 = self.cell_h;
        proof {
            lemma_cell_in_grid(x as int, y as int, w as int, h as int);
            lemma_cell_in_grid(
                y * w + x,
                gid as int,
                w * h,
                self.glyph_count as int,
            );
            lemma_mul_bounds(w as int, h as int, 255, 255);
            lemma_mul_bounds(gid as int, w * h, 65535, 65025);
            lemma_mul_bounds(y as int, w as int, 255, 255);
            assert((w * h) * self.glyph_count == self.glyph_count * (w * h)) by (nonlinear_arith);
        }
        let cell: usize = w as usize * h as usize;
        self.logical[gid as usize * cell + (y as usize * w as usize + x as usize)]
    }
}

proof fn lemma_one_cell(count: int, gid: int, cell: int)
    by (nonlinear_arith)
    requires
        0 <= gid < count,
        0 <= cell,
    ensures
        cell <= count * cell,
{
}

// ---- texture grid -----------------------------------------------------------------

/// The first column count from `c` on whose square holds `n` glyphs, at most `max`.
pub open spec fn square_cols(c: int, max: int, n: int) -> int
    decreases max - c,
{
    if c < max && c * c < n {
        square_cols(c + 1, max, n)
    } else {
        c
    }
}

/// Rows that `n` glyphs take in `cols` columns.
pub open spec fn grid_rows(n: int, cols: int) -> int {
    (n + cols - 1) / cols
}

/// The texture that `n` cells of `w` by `h` take in `cols` columns: columns and
/// both edges.
pub open spec fn layout_in(n: int, w: int, h: int, cols: int) -> (int, int, int) {
    (cols, pow2_ceil(cols * w), pow2_ceil(grid_rows(n, cols) * h))
}

/// A layout fits when neither edge is past `TEX_MAX_DIM`.
pub open spec fn layout_fits(g: (int, int, int)) -> bool {
    g.1 <= TEX_MAX_DIM && g.2 <= TEX_MAX_DIM
}

pub open spec fn at_least_one(v: int) -> int {
    if v < 1 {
        1
    } else {
        v
    }
}

/// The grid for `n` cells of `cov_w` by `cov_h` samples: as square as the
/// glyph count asks for; where that does not fit, as wide as the texture; and
/// `None` where neither fits.
pub open spec fn grid_for(n: int, cov_w: int, cov_h: int) -> Option<(int, int, int)> {
    let w = at_least_one(cov_w);
    let h = at_least_one(cov_h);
    let max = TEX_MAX_DIM as int / w;
    if n == 0 || w > TEX_MAX_DIM || h > TEX_MAX_DIM {
        None
    } else {
        let square = layout_in(n, w, h, square_cols(1, max, n));
        let wide = layout_in(n, w, h, max);
        if layout_fits(square) {
            Some(square)
        } else if layout_fits(wide) {
            Some(wide)
        } else {
            None
        }
    }
}

/// Lays `n` cells of `w` by `h` out in `cols` columns.
fn layout_for(n: u32, w: u32, h: u32, cols: u32) -> (g: (u32, u32, u32))
    requires
        1 <= n <= 0xffff,
        1 <= w <= TEX_MAX_DIM,
        1 <= h <= TEX_MAX_DIM,
        1 <= cols <= TEX_MAX_DIM,
    ensures
        (g.0 as int, g.1 as int, g.2 as int) == layout_in(
            n as int,
            w as int,
            h as int,
            cols as int,
        ),
{
    let rows: u32 = (n + cols - 1) / cols;
    proof {
        lemma_mul_bounds(cols as int, w as int, 512, 512);
        assert(rows <= 0x1_0200) by (nonlinear_arith)
            requires
                rows == (n + cols - 1) / (cols as int),
                n <= 0xffff,
                1 <= cols <= 512,
        ;
        lemma_mul_bounds(rows as int, h as int, 0x1_0200, 512);
    }
    (cols, next_pow2(cols * w), next_pow2(rows * h))
}

/// The grid of exec numbers is `g`.
pub open spec fn same_grid(x: Option<(u32, u32, u32)>, g: Option<(int, int, int)>) -> bool {
    match (x, g) {
        (Some(a), Some(b)) => (a.0 as int, a.1 as int, a.2 as int) == b,
        (None, None) => true,
        _ => false,
    }
}

/// Chooses the texture grid for an atlas.
pub fn font_grid(atlas: &Atlas) -> (g: Option<(u32, u32, u32)>)
    requires
        atlas.wf(),
    ensures
        same_grid(g, grid_for(atlas.glyph_count as int, atlas.cov_w(), atlas.cov_h())),
{
    let n: u32 = atlas.glyph_count as u32;
    let cov_w: u32 = atlas.coverage_width();
    let cov_h: u32 = atlas.coverage_height();
    let w: u32 = if cov_w < 1 {
        1
    } else {
        cov_w
    };
    let h: u32 = if cov_h < 1 {
        1
    } else {
        cov_h
    };
    if n == 0 || w > TEX_MAX_DIM || h > TEX_MAX_DIM {
        return None;
    }
    let max: u32 = TEX_MAX_DIM / w;
    proof {
        assert(1 <= max <= 512) by (nonlinear_arith)
            requires
                max == 512int / (w as int),
                1 <= w <= 512,
        ;
    }
    let mut cols: u32 = 1;
    while cols < max && cols * cols < n
        invariant
            1 <= cols <= max <= 512,
            cols * cols <= 512 * 512,
            square_cols(cols as int, max as int, n as int) == square_cols(1, max as int, n as int),
        decreases max - cols,
    {
        cols = cols + 1;
        proof {
            lemma_mul_bounds(cols as int, cols as int, 512, 512);
        }
    }
    let first = layout_for(n, w, h, cols);
    if first.1 <= TEX_MAX_DIM && first.2 <= TEX_MAX_DIM {
        return Some(first);
    }
    let wide = layout_for(n, w, h, max);
    if wide.1 <= TEX_MAX_DIM && wide.2 <= TEX_MAX_DIM {
        Some(wide)
    } else {
        None
    }
}

// ---- coverage textures ------------------------------------------------------------

/// 8-bit coverage rounded to four bits.
pub open spec fn nibble(coverage: u8) -> int {
    if (coverage as int + 8) / 17 < 15 {
        (coverage as int + 8) / 17
    } else {
        15
    }
}

/// The glyph whose cell holds texel `(px, py)`, when there is one.
pub open spec fn glyph_over(atlas: Atlas, cols: int, px: int, py: int) -> Option<int> {
    let col = px / atlas.cov_w();
    let row = py / atlas.cov_h();
    let gid = row * cols + col;
    if atlas.cov_w() > 0 && atlas.cov_h() > 0 && col < cols && gid < atlas.glyph_count {
        Some(gid)
    } else {
        None
    }
}

/// Texel `(px, py)` as its two bytes: white with the coverage as 4-bit alpha,
/// or nothing at all where the coverage rounds to zero.
pub open spec fn font_texel(atlas: Atlas, cols: int, px: int, py: int) -> (u8, u8) {
    match glyph_over(atlas, cols, px, py) {
        None => (0, 0),
        Some(gid) => {
            let a = nibble(atlas.raster_at(gid, px % atlas.cov_w(), py % atlas.cov_h()));
            if a == 0 {
                (0, 0)
            } else {
                (0xff, (0x0f + 0x10 * a) as u8)
            }
        },
    }
}

/// Byte `k` of a coverage texture of width `tex_w`.
pub open spec fn font_byte(atlas: Atlas, cols: int, tex_w: int, k: int) -> u8 {
    let p = k / 2;
    let t = font_texel(atlas, cols, p % tex_w, p / tex_w);
    if k % 2 == 0 {
        t.0
    } else {
        t.1
    }
}

/// A coverage texture baked from an atlas, with what it was baked from.
pub struct FontTexture {
    /// Identity and size of the coverage plane it was baked from.
    pub source_id: usize,
    pub source_len: usize,
    pub glyph_count: u16,
    /// Cell size in texels.
    pub coverage_w: u32,
    pub coverage_h: u32,
    /// Cell size in logical pixels.
    pub logical_w: u32,
    pub logical_h: u32,
    pub raster_density: u8,
    pub cols: u32,
    pub tex_w: u32,
    pub tex_h: u32,
    pub pixels: Vec<u8>,
}

impl FontTexture {
    /// The grid is the one for this glyph count and cell size.
    pub open spec fn wf(self) -> bool {
        grid_for(self.glyph_count as int, self.coverage_w as int, self.coverage_h as int) == Some(
            (self.cols as int, self.tex_w as int, self.tex_h as int),
        )
    }

    /// Baked from an atlas like `atlas` whose coverage plane is `source_id`.
    pub open spec fn matches(self, atlas: Atlas, source_id: usize) -> bool {
        &&& self.source_id == source_id
        &&& self.source_len == atlas.bitmap@.len()
        &&& self.glyph_count == atlas.glyph_count
        &&& self.coverage_w == atlas.cov_w()
        &&& self.coverage_h == atlas.cov_h()
        &&& self.logical_w == atlas.cell_w
        &&& self.logical_h == atlas.cell_h
        &&& self.raster_density == atlas.raster_density
    }

    /// The pixels are those of `atlas`.
    pub open spec fn shows(self, atlas: Atlas) -> bool {
        self.pixels@ == Seq::new(
            (2 * (self.tex_w * self.tex_h)) as nat,
            |k: int| font_byte(atlas, self.cols as int, self.tex_w as int, k),
        )
    }
}

pub proof fn lemma_grid_bounds(n: int, cov_w: int, cov_h: int)
    requires
        0 <= n,
        grid_for(n, cov_w, cov_h) is Some,
    ensures
        ({
            let (cols, _tex_w, _tex_h) = grid_for(n, cov_w, cov_h)->0;
            1 <= cols <= 512
        }),
{
    let w = at_least_one(cov_w);
    let max = TEX_MAX_DIM as int / w;
    assert(1 <= max <= 512) by (nonlinear_arith)
        requires
            max == 512int / w,
            1 <= w <= 512,
    ;
    lemma_square_cols(1, max, n);
}

proof fn lemma_square_cols(c: int, max: int, n: int)
    requires
        c <= max,
    ensures
        c <= square_cols(c, max, n) <= max,
    decreases max - c,
{
    if c < max && c * c < n {
        lemma_square_cols(c + 1, max, n);
    }
}

/// Every glyph cell lies inside the coverage texture, which is no larger than
/// the graphics engine takes, so that texel positions fit its vertices.
pub proof fn law_glyph_cells_in_texture(n: int, cov_w: int, cov_h: int, gid: int)
    requires
        0 <= gid < n <= 0xffff,
        0 <= cov_w,
        0 <= cov_h,
        grid_for(n, cov_w, cov_h) is Some,
    ensures
        ({
            let (cols, tex_w, tex_h) = grid_for(n, cov_w, cov_h)->0;
            &&& 0 <= (gid % cols) * cov_w && (gid % cols) * cov_w + cov_w <= tex_w <= TEX_MAX_DIM
            &&& 0 <= (gid / cols) * cov_h && (gid / cols) * cov_h + cov_h <= tex_h <= TEX_MAX_DIM
        }),
{
    let (cols, tex_w, tex_h) = grid_for(n, cov_w, cov_h)->0;
    let (w, h) = (at_least_one(cov_w), at_least_one(cov_h));
    let rows = grid_rows(n, cols);
    lemma_grid_bounds(n, cov_w, cov_h);
    let (x, y) = (gid % cols, gid / cols);
    assert(0 <= x < cols && 0 <= y < rows) by (nonlinear_arith)
        requires
            x == gid % cols,
            y == gid / cols,
            rows == (n + cols - 1) / cols,
            0 <= gid < n,
            1 <= cols,
    ;
    assert(rows <= 0x1_0200) by (nonlinear_arith)
        requires
            rows == (n + cols - 1) / cols,
            n <= 0xffff,
            1 <= cols <= 512,
    ;
    lemma_mul_bounds(cols, w, 512, 512);
    lemma_mul_bounds(rows, h, 0x1_0200, 512);
    lemma_doubled(1, cols * w);
    lemma_doubled(1, rows * h);
    lemma_cell_in_row(x, cols, cov_w, w);
    lemma_cell_in_row(y, rows, cov_h, h);
}

proof fn lemma_cell_in_row(i: int, n: int, size: int, step: int)
    by (nonlinear_arith)
    requires
        0 <= i < n,
        0 <= size <= step,
    ensures
        0 <= i * size,
        i * size + size <= n * step,
{
}

proof fn lemma_cell_texel(col: int, row: int, w: int, h: int, cols: int, x: int, y: int)
    requires
        0 <= x < w,
        0 <= y < h,
        0 <= col < cols,
        0 <= row,
    ensures
        (col * w + x) / w == col,
        (col * w + x) % w == x,
        (row * h + y) / h == row,
        (row * h + y) % h == y,
{
    assert((col * w + x) / w == col && (col * w + x) % w == x) by (nonlinear_arith)
        requires
            0 <= x < w,
            0 <= col,
    ;
    assert((row * h + y) / h == row && (row * h + y) % h == y) by (nonlinear_arith)
        requires
            0 <= y < h,
            0 <= row,
    ;
}

/// Every sample of every glyph comes out in the texture: the one in column `x`
/// and row `y` of glyph `gid` is the texel in that column and row of the glyph's
/// cell, white with the sixteenth of alpha that is nearest to the sample; where
/// that is none, both bytes are zero.
pub proof fn law_samples_are_baked(
    atlas: Atlas,
    source_id: usize,
    tex: FontTexture,
    gid: int,
    x: int,
    y: int,
)
    requires
        atlas.wf(),
        tex.wf(),
        tex.matches(atlas, source_id),
        tex.shows(atlas),
        0 <= gid < atlas.glyph_count,
        0 <= x < atlas.cell_w * atlas.raster_density,
        0 <= y < atlas.cell_h * atlas.raster_density,
    ensures
        ({
            let (w, h) = (atlas.cell_w * atlas.raster_density, atlas.cell_h * atlas.raster_density);
            let sample = atlas.bitmap@[gid * (w * h) + (y * w + x)] as int;
            let (px, py) = ((gid % tex.cols as int) * w + x, (gid / tex.cols as int) * h + y);
            let at = 2 * (py * tex.tex_w + px);
            let (lo, hi) = (tex.pixels@[at] as int, tex.pixels@[at + 1] as int);
            let alpha = hi / 16;
            &&& 0 <= px < tex.tex_w && 0 <= py < tex.tex_h
            &&& 0 <= at && at + 1 < tex.pixels@.len()
            &&& -8 <= 17 * alpha - sample <= 8
            &&& if alpha == 0 {
                lo == 0 && hi == 0
            } else {
                lo == 0xff && hi % 16 == 15
            }
        }),
{
    let (w, h) = (atlas.cov_w(), atlas.cov_h());
    let cols = tex.cols as int;
    law_glyph_cells_in_texture(atlas.glyph_count as int, w, h, gid);
    lemma_grid_bounds(atlas.glyph_count as int, w, h);
    let (col, row) = (gid % cols, gid / cols);
    assert(0 <= col < cols && 0 <= row && row * cols + col == gid) by (nonlinear_arith)
        requires
            col == gid % cols,
            row == gid / cols,
            0 <= gid,
            1 <= cols,
    ;
    lemma_cell_texel(col, row, w, h, cols, x, y);
    let (px, py) = (col * w + x, row * h + y);
    crate::arith::lemma_cell_in_grid(px, py, tex.tex_w as int, tex.tex_h as int);
    let p = py * tex.tex_w + px;
    let tw = tex.tex_w as int;
    assert(p % tw == px && p / tw == py) by (nonlinear_arith)
        requires
            p == py * tw + px,
            0 <= px < tw,
            0 <= py,
    ;
    assert(glyph_over(atlas, cols, px, py) == Some(gid));
    assert(tex.pixels@[2 * p] == font_byte(atlas, cols, tw, 2 * p));
    assert(tex.pixels@[2 * p + 1] == font_byte(atlas, cols, tw, 2 * p + 1));
    assert((2 * p) / 2 == p && (2 * p + 1) / 2 == p);
}

/// A texel of the texture that lies in no glyph's cell is clear.
pub proof fn law_gaps_are_clear(atlas: Atlas, source_id: usize, tex: FontTexture, px: int, py: int)
    requires
        atlas.wf(),
        tex.wf(),
        tex.matches(atlas, source_id),
        tex.shows(atlas),
        0 <= px < tex.tex_w,
        0 <= py < tex.tex_h,
        forall|gid: int|
            #![trigger gid % (tex.cols as int)]
            0 <= gid < atlas.glyph_count ==> {
                let (w, h) = (
                    atlas.cell_w * atlas.raster_density,
                    atlas.cell_h * atlas.raster_density,
                );
                let (x0, y0) = ((gid % tex.cols as int) * w, (gid / tex.cols as int) * h);
                !(x0 <= px < x0 + w && y0 <= py < y0 + h)
            },
    ensures
        ({
            let at = 2 * (py * tex.tex_w + px);
            &&& 0 <= at && at + 1 < tex.pixels@.len()
            &&& tex.pixels@[at] == 0 && tex.pixels@[at + 1] == 0
        }),
{
    let (w, h) = (atlas.cov_w(), atlas.cov_h());
    let cols = tex.cols as int;
    lemma_grid_bounds(atlas.glyph_count as int, w, h);
    crate::arith::lemma_cell_in_grid(px, py, tex.tex_w as int, tex.tex_h as int);
    let tw = tex.tex_w as int;
    let p = py * tw + px;
    assert(p % tw == px && p / tw == py) by (nonlinear_arith)
        requires
            p == py * tw + px,
            0 <= px < tw,
            0 <= py,
    ;
    assert((2 * p) / 2 == p && (2 * p + 1) / 2 == p);
    assert(tex.pixels@[2 * p] == font_byte(atlas, cols, tw, 2 * p));
    assert(tex.pixels@[2 * p + 1] == font_byte(atlas, cols, tw, 2 * p + 1));
    if glyph_over(atlas, cols, px, py) is Some {
        let (col, row) = (px / w, py / h);
        let gid = row * cols + col;
        assert(gid % cols == col && gid / cols == row && 0 <= gid) by (nonlinear_arith)
            requires
                gid == row * cols + col,
                0 <= col < cols,
                0 <= row,
        ;
        assert(col * w <= px < col * w + w) by (nonlinear_arith)
            requires
                col == px / w,
                0 < w,
                0 <= px,
        ;
        assert(row * h <= py < row * h + h) by (nonlinear_arith)
            requires
                row == py / h,
                0 < h,
                0 <= py,
        ;
    }
}

/// Bakes the coverage texture of an atlas; `None` when no grid fits.
pub fn build_font_texture(atlas: &Atlas, source_id: usize) -> (r: Option<FontTexture>)
    requires
        atlas.wf(),
    ensures
        r is Some <==> grid_for(atlas.glyph_count as int, atlas.cov_w(), atlas.cov_h()) is Some,
        r is Some ==> r->0.wf() && r->0.matches(*atlas, source_id) && r->0.shows(*atlas),
{
    let (cols, tex_w, tex_h) = match font_grid(atlas) {
        Some(g) => g,
        None => return None,
    };
    let cell_w: u32 = atlas.coverage_width();
    let cell_h: u32 = atlas.coverage_height();
    proof {
        lemma_grid_bounds(atlas.glyph_count as int, atlas.cov_w(), atlas.cov_h());
        lemma_mul_bounds(tex_w as int, tex_h as int, 512, 512);
    }
    let total: u32 = tex_w * tex_h;
    let mut pixels: Vec<u8> = Vec::new();
    let mut p: u32 = 0;
    while p < total
        invariant
            atlas.wf(),
            p <= total,
            total == tex_w * tex_h,
            cell_w == atlas.cov_w(),
            cell_h == atlas.cov_h(),
            1 <= cols <= 512,
            tex_w <= 512,
            tex_h <= 512,
            pixels@ == Seq::new(
                (2 * p) as nat,
                |k: int| font_byte(*atlas, cols as int, tex_w as int, k),
            ),
        decreases total - p,
    {
        proof {
            assert(tex_w > 0) by (nonlinear_arith)
                requires
                    0 <= p < tex_w * tex_h,
                    tex_w >= 0,
            ;
        }
        let px: u32 = p % tex_w;
        let py: u32 = p / tex_w;
        let mut lo: u8 = 0;
        let mut hi: u8 = 0;
        if cell_w > 0 && cell_h > 0 {
            let col: u32 = px / cell_w;
            let row: u32 = py / cell_h;
            proof {
                assert(py < 512) by (nonlinear_arith)
                    requires
                        py == p as int / tex_w as int,
                        p < tex_w * tex_h,
                        0 < tex_w,
                        tex_h <= 512,
                ;
                assert(row <= py) by (nonlinear_arith)
                    requires
                        row == py as int / cell_h as int,
                        cell_h > 0,
                ;
                assert(col <= px) by (nonlinear_arith)
                    requires
                        col == px as int / cell_w as int,
                        cell_w > 0,
                ;
                lemma_mul_bounds(row as int, cols as int, 512, 512);
            }
            let gid: u32 = row * cols + col;
            if col < cols && gid < atlas.glyph_count as u32 {
                let c: u8 = atlas.raster_coverage(gid as u16, px % cell_w, py % cell_h);
                let q: u32 = (c as u32 + 8) / 17;
                let a: u32 = if q < 15 {
                    q
                } else {
                    15
                };
                if a != 0 {
                    lo = 0xff;
                    hi = (0x0f + 0x10 * a) as u8;
                }
            }
        }
        pixels.push(lo);
        pixels.push(hi);
        proof {
            let t = font_texel(*atlas, cols as int, px as int, py as int);
            assert(t == (lo, hi));
            assert(font_byte(*atlas, cols as int, tex_w as int, 2 * p as int) == lo);
            assert(font_byte(*atlas, cols as int, tex_w as int, 2 * p as int + 1) == hi);
            assert(pixels@ =~= Seq::new(
                (2 * (p + 1)) as nat,
                |k: int| font_byte(*atlas, cols as int, tex_w as int, k),
            ));
        }
        p = p + 1;
    }
    Some(
        FontTexture {
            source_id,
            source_len: atlas.bitmap.len(),
            glyph_count: atlas.glyph_count,
            coverage_w: cell_w,
            coverage_h: cell_h,
            logical_w: atlas.cell_w,
            logical_h: atlas.cell_h,
            raster_density: atlas.raster_density,
            cols,
            tex_w,
            tex_h,
            pixels,
        },
    )
}

/// The coverage textures of the atlases in use, one per font slot.
pub struct FontCache {
    pub slots: Vec<Option<FontTexture>>,
}

impl FontCache {
    pub open spec fn wf(self) -> bool {
        &&& self.slots@.len() == MAX_FONT_SLOTS
        &&& forall|i: int|
            #![trigger self.slots@[i]]
            0 <= i < MAX_FONT_SLOTS && self.slots@[i] is Some ==> self.slots@[i]->0.wf()
    }

    /// A cache with nothing in it.
    pub fn new() -> (c: FontCache)
        ensures
            c.wf(),
            forall|i: int| 0 <= i < MAX_FONT_SLOTS ==> #[trigger] c.slots@[i] is None,
    {
        let mut slots: Vec<Option<FontTexture>> = Vec::new();
        let mut i: usize = 0;
        while i < MAX_FONT_SLOTS
            invariant
                i <= MAX_FONT_SLOTS,
                slots@.len() == i,
                forall|j: int| 0 <= j < i ==> #[trigger] slots@[j] is None,
            decreases MAX_FONT_SLOTS - i,
        {
            slots.push(None);
            i = i + 1;
        }
        FontCache { slots }
    }

    /// Forgets every texture.
    pub fn reset_fonts(&mut self)
        ensures
            final(self).wf(),
            forall|i: int| 0 <= i < MAX_FONT_SLOTS ==> #[trigger] final(self).slots@[i] is None,
    {
        *self = FontCache::new();
    }

    /// The texture kept for `slot` was baked from an atlas like this one.
    pub open spec fn fresh(self, atlas: Atlas, source_id: usize) -> bool {
        self.slots@[atlas.slot as int] is Some && self.slots@[atlas.slot as int]->0.matches(
            atlas,
            source_id,
        )
    }

    /// Makes sure that the slot of `atlas` holds its texture, baking it when
    /// the one kept is of another atlas. Returns whether there is one.
    pub fn font_texture(&mut self, atlas: &Atlas, source_id: usize) -> (r: bool)
        requires
            old(self).wf(),
            atlas.wf(),
        ensures
            final(self).wf(),
            atlas.slot >= MAX_FONT_SLOTS ==> !r && *final(self) == *old(self),
            atlas.slot < MAX_FONT_SLOTS ==> {
                let at = atlas.slot as int;
                &&& r <==> final(self).slots@[at] is Some
                &&& r <==> grid_for(atlas.glyph_count as int, atlas.cov_w(), atlas.cov_h()) is Some
                &&& r ==> final(self).slots@[at]->0.matches(*atlas, source_id)
                &&& old(self).fresh(*atlas, source_id) ==> *final(self) == *old(self)
                &&& (r && !old(self).fresh(*atlas, source_id)) ==> final(self).slots@[at]->0.shows(
                    *atlas,
                )
                &&& forall|i: int|
                    #![trigger final(self).slots@[i]]
                    0 <= i < MAX_FONT_SLOTS && i != at ==> final(self).slots@[i] == old(
                        self,
                    ).slots@[i]
            },
    {
        let at: usize = atlas.slot as usize;
        if at >= MAX_FONT_SLOTS {
            return false;
        }
        let fresh: bool = match &self.slots[at] {
            Some(tex) => {
                tex.source_id == source_id && tex.source_len == atlas.bitmap.len()
                    && tex.glyph_count == atlas.glyph_count && tex.coverage_w
                    == atlas.coverage_width() && tex.coverage_h == atlas.coverage_height()
                    && tex.logical_w == atlas.cell_w && tex.logical_h == atlas.cell_h
                    && tex.raster_density == atlas.raster_density
            },
            None => false,
        };
        if fresh {
            return true;
        }
        let built = build_font_texture(atlas, source_id);
        let some: bool = built.is_some();
        self.slots.set(at, built);
        some
    }
}

/// A font has a texture if its cells fit one as wide as can be: as many columns
/// as go into 512 texels, and rows for all glyphs.
pub proof fn law_fonts_that_fit_have_a_texture(n: int, cov_w: int, cov_h: int)
    requires
        1 <= n <= 0xffff,
        1 <= cov_w <= 512,
        1 <= cov_h <= 512,
        ((n + 512int / cov_w - 1) / (512int / cov_w)) * cov_h <= 512,
    ensures
        grid_for(n, cov_w, cov_h) is Some,
{
    let max = 512int / cov_w;
    assert(1 <= max && max * cov_w <= 512) by (nonlinear_arith)
        requires
            max == 512int / cov_w,
            1 <= cov_w <= 512,
    ;
    let rows = (n + max - 1) / max;
    lemma_pow2_fits(max * cov_w);
    lemma_pow2_fits(rows * cov_h);
}

proof fn lemma_pow2_fits(v: int)
    requires
        v <= 512,
    ensures
        pow2_ceil(v) <= 512,
{
    assert(crate::arith::is_pow2(1));
    lemma_doubled(1, v);
    if pow2_ceil(v) > 512 {
        reveal_with_fuel(crate::arith::is_pow2, 11);
        assert(crate::arith::is_pow2(512));
        crate::arith::law_pow2_ceil(v, 512);
    }
}

proof fn lemma_square(c: int, max: int, n: int)
    requires
        1 <= c <= max,
        c == 1 || (c - 1) * (c - 1) < n,
    ensures
        ({
            let q = square_cols(c, max, n);
            &&& c <= q <= max
            &&& q < max ==> q * q >= n
            &&& q == 1 || (q - 1) * (q - 1) < n
        }),
    decreases max - c,
{
    if c < max && c * c < n {
        lemma_square(c + 1, max, n);
    }
}

/// Glyphs are laid out in as few columns as make a square of them, if they fit,
/// and otherwise in as many as go into 512 texels; there are rows for all of
/// them, and the texture is no larger than a power of two has to be.
pub proof fn law_fonts_are_laid_out_in_a_square(n: int, cov_w: int, cov_h: int)
    requires
        1 <= cov_w,
        1 <= cov_h,
        grid_for(n, cov_w, cov_h) is Some,
    ensures
        ({
            let (cols, w, h) = grid_for(n, cov_w, cov_h)->0;
            &&& cols == 1 || (cols - 1) * (cols - 1) < n || cols == 512int / cov_w
            &&& cols * cols >= n || cols == 512int / cov_w
            &&& w == pow2_ceil(cols * cov_w) && w <= 512
            &&& h == pow2_ceil(((n + cols - 1) / cols) * cov_h) && h <= 512
        }),
{
    let max = 512int / cov_w;
    assert(max >= 1) by (nonlinear_arith)
        requires
            max == 512int / cov_w,
            1 <= cov_w <= 512,
    ;
    lemma_square(1, max, n);
}

} // verus!
