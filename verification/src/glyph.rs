//! Glyph cells as horizontal runs of equal alpha.
use crate::arith::lemma_mul_bounds;
use crate::font::Atlas;
use vstd::prelude::*;

verus! {

/// The alpha of a colour, its top eight bits.
pub open spec fn color_alpha(color: u32) -> int {
    color as int / 0x100_0000
}

/// Alpha of text of this colour where a glyph has this coverage, rounded to
/// one of sixteen levels.
pub open spec fn text_alpha(color: u32, coverage: u8) -> u8 {
    if coverage == 0 {
        0
    } else {
        let alpha = (color_alpha(color) * coverage + 127) / 255;
        let level = ((alpha + 8) / 17) * 17;
        (if level < 255 {
            level
        } else {
            255
        }) as u8
    }
}

/// The colour with another alpha.
pub open spec fn recolored(color: u32, alpha: u8) -> int {
    color as int % 0x100_0000 + 0x100_0000 * (alpha as int)
}

/// Alpha of text of this colour where a glyph has this coverage.
pub fn glyph_alpha(color: u32, coverage: u8) -> (r: u8)
    ensures
        r == text_alpha(color, coverage),
        r % 17 == 0,
        coverage == 0 ==> r == 0,
{
    if coverage == 0 {
        return 0;
    }
    let base: u32 = color / 0x100_0000;
    proof {
        lemma_mul_bounds(base as int, coverage as int, 255, 255);
    }
    let alpha: u32 = (base * coverage as u32 + 127) / 255;
    let level: u32 = ((alpha + 8) / 17) * 17;
    if level < 255 {
        level as u8
    } else {
        255
    }
}

/// Replaces the alpha of a colour.
pub fn with_alpha(color: u32, alpha: u8) -> (r: u32)
    ensures
        r == recolored(color, alpha),
{
    color % 0x100_0000 + 0x100_0000 * (alpha as u32)
}

// ---- runs ---------------------------------------------------------------------

/// Pixels `start..end` of a row, all of one alpha.
pub struct Run {
    pub start: int,
    pub end: int,
    pub alpha: u8,
}

/// The end of the stretch of `alpha` that starts at `x`.
pub open spec fn run_end(row: Seq<u8>, x: int, alpha: u8) -> int
    decreases row.len() - x,
{
    if 0 <= x < row.len() && row[x] == alpha {
        run_end(row, x + 1, alpha)
    } else {
        x
    }
}

pub proof fn lemma_run_end(row: Seq<u8>, x: int, alpha: u8)
    requires
        0 <= x <= row.len(),
    ensures
        x <= run_end(row, x, alpha) <= row.len(),
        forall|k: int| x <= k < run_end(row, x, alpha) ==> row[k] == alpha,
        run_end(row, x, alpha) < row.len() ==> row[run_end(row, x, alpha)] != alpha,
        x < row.len() && row[x] == alpha ==> x < run_end(row, x, alpha),
    decreases row.len() - x,
{
    if x < row.len() && row[x] == alpha {
        lemma_run_end(row, x + 1, alpha);
    }
}

/// The maximal runs of visible pixels from `x` on, left to right.
pub open spec fn row_runs(row: Seq<u8>, x: int) -> Seq<Run>
    decreases row.len() - x,
{
    if x < 0 || x >= row.len() {
        Seq::empty()
    } else if row[x] == 0 {
        row_runs(row, x + 1)
    } else {
        let end = run_end(row, x, row[x]);
        proof {
            lemma_run_end(row, x, row[x]);
        }
        if x < end {
            seq![Run { start: x, end, alpha: row[x] }] + row_runs(row, end)
        } else {
            Seq::empty()
        }
    }
}

/// Some run holds pixel `k` with this alpha.
pub open spec fn in_some_run(runs: Seq<Run>, k: int, alpha: u8) -> bool {
    exists|j: int|
        #![trigger runs[j]]
        0 <= j < runs.len() && runs[j].start <= k < runs[j].end && runs[j].alpha == alpha
}

/// The runs cover exactly the visible pixels, each with its own alpha.
pub proof fn law_runs_cover(row: Seq<u8>, x: int, k: int)
    requires
        0 <= x <= k < row.len(),
    ensures
        row[k] != 0 <==> in_some_run(row_runs(row, x), k, row[k]),
    decreases row.len() - x,
{
    let runs = row_runs(row, x);
    lemma_runs_inside(row, x);
    if row[x] == 0 {
        assert(runs == row_runs(row, x + 1));
        if k > x {
            law_runs_cover(row, x + 1, k);
        }
    } else {
        let end = run_end(row, x, row[x]);
        lemma_run_end(row, x, row[x]);
        let rest = row_runs(row, end);
        assert(runs[0] == Run { start: x, end, alpha: row[x] });
        if k >= end {
            law_runs_cover(row, end, k);
            if row[k] != 0 {
                let j = choose|j: int|
                    #![trigger rest[j]]
                    0 <= j < rest.len() && rest[j].start <= k < rest[j].end && rest[j].alpha
                        == row[k];
                assert(runs[j + 1] == rest[j]);
            }
        }
    }
    if row[k] == 0 {
        assert forall|j: int| #![trigger runs[j]] 0 <= j < runs.len() implies runs[j].alpha
            != 0 by {}
    }
}

/// Every pixel of a run has its alpha.
pub proof fn law_runs_are_of_one_alpha(row: Seq<u8>, x: int, j: int, k: int)
    requires
        0 <= x <= row.len(),
        0 <= j < row_runs(row, x).len(),
        row_runs(row, x)[j].start <= k < row_runs(row, x)[j].end,
    ensures
        0 <= k < row.len(),
        row[k] == row_runs(row, x)[j].alpha,
        row[k] != 0,
    decreases row.len() - x,
{
    lemma_runs_inside(row, x);
    if x < row.len() {
        if row[x] == 0 {
            assert(row_runs(row, x) == row_runs(row, x + 1));
            law_runs_are_of_one_alpha(row, x + 1, j, k);
        } else {
            let end = run_end(row, x, row[x]);
            lemma_run_end(row, x, row[x]);
            if j > 0 {
                assert(row_runs(row, x)[j] == row_runs(row, end)[j - 1]);
                law_runs_are_of_one_alpha(row, end, j - 1, k);
            }
        }
    }
}

/// The alpha of text is the product of the colour's alpha and the coverage in
/// 255ths, rounded, and then the nearest of sixteen even levels. Nothing shows
/// without coverage, and full coverage shows the level nearest to the colour's
/// own alpha.
pub proof fn law_text_alpha(color: u32, coverage: u8)
    ensures
        ({
            let (a, c) = (color as int / 0x100_0000, coverage as int);
            let level = text_alpha(color, coverage) as int;
            &&& level % 17 == 0
            &&& coverage == 0 ==> level == 0
            &&& coverage == 255 ==> -8 <= level - a <= 8
            &&& -8 * 255 - 127 <= 255 * level - a * c <= 8 * 255 + 127
        }),
{
    let (a, c) = (color as int / 0x100_0000, coverage as int);
    lemma_mul_bounds(a, c, 255, 255);
    if c == 0 {
        assert(a * c == 0) by (nonlinear_arith)
            requires
                c == 0,
        ;
    } else {
        let q = (a * c + 127) / 255;
        assert(-127 <= 255 * q - a * c <= 127);
        let level = ((q + 8) / 17) * 17;
        assert(q <= 255);
        assert(-8 <= level - q <= 8);
        if c == 255 {
            assert(a * c == 255 * a) by (nonlinear_arith)
                requires
                    c == 255,
            ;
            assert(q == a);
        }
    }
}

/// A colour with another alpha keeps its other parts.
pub proof fn law_recolored(color: u32, alpha: u8)
    ensures
        recolored(color, alpha) as u32 as int == recolored(color, alpha),
        recolored(color, alpha) as u32 as int / 0x100_0000 == alpha,
        recolored(color, alpha) as u32 as int % 0x100_0000 == color as int % 0x100_0000,
{
}

/// Runs lie inside their row and are visible.
pub proof fn lemma_runs_inside(row: Seq<u8>, x: int)
    requires
        0 <= x <= row.len(),
    ensures
        forall|j: int|
            #![trigger row_runs(row, x)[j]]
            0 <= j < row_runs(row, x).len() ==> x <= row_runs(row, x)[j].start < row_runs(
                row,
                x,
            )[j].end <= row.len() && row_runs(row, x)[j].alpha != 0,
    decreases row.len() - x,
{
    if x < row.len() {
        if row[x] == 0 {
            lemma_runs_inside(row, x + 1);
            let rest = row_runs(row, x + 1);
            assert(row_runs(row, x) == rest);
            assert forall|j: int| #![trigger rest[j]] 0 <= j < rest.len() implies x
                <= rest[j].start < rest[j].end <= row.len() && rest[j].alpha != 0 by {}
        } else {
            let end = run_end(row, x, row[x]);
            lemma_run_end(row, x, row[x]);
            lemma_runs_inside(row, end);
            let runs = row_runs(row, x);
            let rest = row_runs(row, end);
            assert forall|j: int| #![trigger runs[j]] 0 <= j < runs.len() implies x
                <= runs[j].start < runs[j].end <= row.len() && runs[j].alpha != 0 by {
                if j > 0 {
                    assert(runs[j] == rest[j - 1]);
                }
            }
        }
    }
}

/// Number of pixels from `x` on that are visible and differ from the pixel to
/// their left, where `left` is left of `x`.
pub open spec fn run_starts(row: Seq<u8>, x: int, left: u8) -> nat
    decreases row.len() - x,
{
    if x < 0 || x >= row.len() {
        0
    } else {
        (if row[x] != 0 && row[x] != left {
            1nat
        } else {
            0nat
        }) + run_starts(row, x + 1, row[x])
    }
}

/// Counting the pixels that start a run counts the runs.
pub proof fn law_run_starts_count_runs(row: Seq<u8>, x: int, left: u8)
    requires
        0 <= x <= row.len(),
        x < row.len() ==> row[x] == 0 || row[x] != left,
    ensures
        run_starts(row, x, left) == row_runs(row, x).len(),
    decreases row.len() - x,
{
    if x < row.len() {
        if row[x] == 0 {
            law_run_starts_count_runs(row, x + 1, 0);
        } else {
            let end = run_end(row, x, row[x]);
            lemma_run_end(row, x, row[x]);
            lemma_starts_in_run(row, x + 1, end, row[x]);
            law_run_starts_count_runs(row, end, row[x]);
        }
    }
}

proof fn lemma_starts_in_run(row: Seq<u8>, x: int, end: int, alpha: u8)
    requires
        0 <= x <= end <= row.len(),
        forall|k: int| x <= k < end ==> row[k] == alpha,
    ensures
        run_starts(row, x, alpha) == run_starts(row, end, alpha),
    decreases end - x,
{
    if x < end {
        lemma_starts_in_run(row, x + 1, end, alpha);
    }
}

// ---- glyph cells ------------------------------------------------------------------

/// Alphas of row `y` of a glyph drawn in `color`.
pub open spec fn glyph_row(atlas: Atlas, gid: int, y: int, color: u32) -> Seq<u8> {
    Seq::new(atlas.cell_w as nat, |x: int| text_alpha(color, atlas.coverage_at(gid, x, y)))
}

/// Number of runs in the rows of a glyph from `y` on.
pub open spec fn glyph_runs(atlas: Atlas, gid: int, y: int, color: u32) -> nat
    decreases atlas.cell_h - y,
{
    if y < 0 || y >= atlas.cell_h {
        0
    } else {
        row_runs(glyph_row(atlas, gid, y, color), 0).len() + glyph_runs(atlas, gid, y + 1, color)
    }
}

proof fn lemma_starts_bounded(row: Seq<u8>, x: int, left: u8)
    requires
        0 <= x <= row.len(),
    ensures
        run_starts(row, x, left) <= row.len() - x,
    decreases row.len() - x,
{
    if x < row.len() {
        lemma_starts_bounded(row, x + 1, row[x]);
    }
}

/// Counts the runs of one glyph.
pub fn count_glyph_runs(atlas: &Atlas, gid: u16, color: u32) -> (runs: usize)
    requires
        atlas.wf(),
        gid < atlas.glyph_count,
    ensures
        runs == glyph_runs(*atlas, gid as int, 0, color),
        runs <= 255 * 255,
{
    let mut runs: usize = 0;
    let mut y: u32 = 0;
    while y < atlas.cell_h
        invariant
            atlas.wf(),
            gid < atlas.glyph_count,
            y <= atlas.cell_h,
            runs + glyph_runs(*atlas, gid as int, y as int, color) == glyph_runs(
                *atlas,
                gid as int,
                0,
                color,
            ),
            runs <= y * 255,
        decreases atlas.cell_h - y,
    {
        let ghost row = glyph_row(*atlas, gid as int, y as int, color);
        let ghost before = runs;
        let mut cur: u8 = 0;
        let mut x: u32 = 0;
        while x < atlas.cell_w
            invariant
                atlas.wf(),
                gid < atlas.glyph_count,
                y < atlas.cell_h,
                x <= atlas.cell_w,
                row == glyph_row(*atlas, gid as int, y as int, color),
                runs <= before + x,
                before <= y * 255,
                runs + run_starts(row, x as int, cur) == before + run_starts(row, 0, 0),
            decreases atlas.cell_w - x,
        {
            let a: u8 = glyph_alpha(color, atlas.logical_coverage(gid, x, y));
            proof {
                assert(row[x as int] == a);
            }
            if a != 0 && a != cur {
                runs = runs + 1;
            }
            cur = a;
            x = x + 1;
        }
        proof {
            law_run_starts_count_runs(row, 0, 0);
        }
        y = y + 1;
    }
    runs
}

} // verus!
