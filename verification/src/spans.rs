//! Antialiased shapes as rows of rectangles.
//!
//! A shape is cut into rows; each row has a left and a right edge pixel of
//! partial coverage and a stretch of whole pixels between them.
use crate::color::{
    alpha, byte_scale, coverage_mul, covered, quarter_covered, scale_alpha_coverage,
    scale_alpha_quarters, scaled,
};
use crate::constants::{
    F32_ONE, GRAD_TO_BOTTOM, GRAD_TO_LEFT, GRAD_TO_RIGHT, GRAD_TO_TOP, OP_RECT,
};
use crate::drawlist::{law_packed_words_unpack, rect_record, DrawList};
use crate::fbits::{above_zero, positive};
use crate::ge::{h_of, w_of, x_of, y_of};
use crate::glyph::{lemma_run_end, lemma_runs_inside, row_runs, run_end, Run};
use vstd::prelude::*;

verus! {

// ---- fills ----------------------------------------------------------------------------

/// What a shape is filled with. The place of the middle colour of a gradient
/// is a bit pattern.
#[derive(Clone, Copy)]
pub enum Fill {
    Flat(u32),
    Grad { from: u32, via: Option<(u32, u32)>, to: u32, dir: u32 },
}

/// The gradient runs along rows.
pub open spec fn is_horizontal(dir: u32) -> bool {
    dir == GRAD_TO_LEFT || dir == GRAD_TO_RIGHT
}

/// The first colour is at this corner; corners run clockwise from the top left.
pub open spec fn corner_is_from(dir: u32, corner: int) -> bool {
    if dir == GRAD_TO_TOP {
        corner == 2 || corner == 3
    } else if dir == GRAD_TO_LEFT {
        corner == 1 || corner == 2
    } else if dir == GRAD_TO_RIGHT {
        corner == 0 || corner == 3
    } else {
        corner == 0 || corner == 1
    }
}

/// The colour of a corner.
pub fn corner_color(fill: &Fill, corner: usize) -> (c: u32)
    ensures
        c == (match *fill {
            Fill::Flat(color) => color,
            Fill::Grad { from, via: _, to, dir } => if corner_is_from(dir, corner as int) {
                from
            } else {
                to
            },
        }),
{
    match fill {
        Fill::Flat(color) => *color,
        Fill::Grad { from, via: _, to, dir } => {
            let at_from: bool = if *dir == GRAD_TO_TOP {
                corner == 2 || corner == 3
            } else if *dir == GRAD_TO_LEFT {
                corner == 1 || corner == 2
            } else if *dir == GRAD_TO_RIGHT {
                corner == 0 || corner == 3
            } else {
                corner == 0 || corner == 1
            };
            if at_from {
                *from
            } else {
                *to
            }
        },
    }
}

/// Longest run of one colour in a row: short for gradients along the row.
pub open spec fn run_limit(fill: Fill) -> int {
    match fill {
        Fill::Flat(_) => 1_000_000,
        Fill::Grad { from: _, via: _, to: _, dir } => if is_horizontal(dir) {
            4
        } else {
            1_000_000
        },
    }
}

pub fn gradient_run_limit(fill: &Fill) -> (r: i32)
    ensures
        r == run_limit(*fill),
        r > 0,
{
    match fill {
        Fill::Flat(_) => 1_000_000,
        Fill::Grad { from: _, via: _, to: _, dir } => if *dir == GRAD_TO_LEFT || *dir
            == GRAD_TO_RIGHT {
            4
        } else {
            1_000_000
        },
    }
}

/// Whether the colour changes from row to row.
pub fn vertical_gradient(fill: &Fill) -> (r: bool)
    ensures
        r <==> (*fill matches Fill::Grad { from: _, via: _, to: _, dir } && (dir == GRAD_TO_TOP
            || dir == GRAD_TO_BOTTOM)),
{
    match fill {
        Fill::Flat(_) => false,
        Fill::Grad { from: _, via: _, to: _, dir } => *dir == GRAD_TO_TOP || *dir
            == GRAD_TO_BOTTOM,
    }
}

// ---- runs of a row ----------------------------------------------------------------------

/// The colour of run `k`; the last colour given serves all later runs, so
/// that one colour is enough for a flat fill.
pub open spec fn run_color(colors: Seq<u32>, k: int) -> u32 {
    if k < colors.len() {
        colors[k]
    } else {
        colors.last()
    }
}

/// A rectangle, unless its colour is invisible.
pub open spec fn visible_rect(x: int, y: int, w: int, h: int, color: int) -> Seq<u32> {
    if color / 0x100_0000 > 0 {
        rect_record(x, y, w, h, color as u32)
    } else {
        Seq::empty()
    }
}

/// The runs of pixels `x..x1` from run `k` on, each at most `limit` long.
pub open spec fn run_words(
    colors: Seq<u32>,
    k: int,
    limit: int,
    y: int,
    h: int,
    x: int,
    x1: int,
    coverage: int,
) -> Seq<u32>
    decreases x1 - x,
{
    if x >= x1 || limit < 1 {
        Seq::empty()
    } else {
        let next = if x + limit < x1 {
            x + limit
        } else {
            x1
        };
        visible_rect(x, y, next - x, h, covered(run_color(colors, k), coverage)) + run_words(
            colors,
            k + 1,
            limit,
            y,
            h,
            next,
            x1,
            coverage,
        )
    }
}

/// The words for pixels `x0..x1` of a band of rows under one coverage.
pub open spec fn span_words(
    colors: Seq<u32>,
    limit: int,
    y: int,
    h: int,
    x0: int,
    x1: int,
    coverage: int,
) -> Seq<u32> {
    if coverage == 0 || h <= 0 {
        Seq::empty()
    } else {
        run_words(colors, 0, limit, y, h, x0, x1, coverage)
    }
}

/// Paints pixels `x0..x1` of the `h` rows from `y` on under one coverage.
pub fn emit_rounded_span(
    dl: &mut DrawList,
    colors: &[u32],
    limit: i32,
    y: i32,
    h: i32,
    x0: i32,
    x1: i32,
    coverage: u32,
)
    requires
        colors@.len() > 0,
        limit > 0,
        x1 - x0 <= i32::MAX,
    ensures
        final(dl).words@ == old(dl).words@ + span_words(
            colors@,
            limit as int,
            y as int,
            h as int,
            x0 as int,
            x1 as int,
            coverage as int,
        ),
{
    let ghost all = old(dl).words@ + span_words(
        colors@,
        limit as int,
        y as int,
        h as int,
        x0 as int,
        x1 as int,
        coverage as int,
    );
    proof {
        assert(dl.words@ + Seq::<u32>::empty() =~= dl.words@);
    }
    if coverage == 0 || h <= 0 || x1 <= x0 {
        return;
    }
    let mut x: i32 = x0;
    let mut k: usize = 0;
    while x < x1
        invariant
            colors@.len() > 0,
            limit > 0,
            x0 <= x <= x1,
            x1 - x0 <= i32::MAX,
            k <= x - x0,
            dl.words@ + run_words(
                colors@,
                k as int,
                limit as int,
                y as int,
                h as int,
                x as int,
                x1 as int,
                coverage as int,
            ) == all,
        decreases x1 - x,
    {
        let next: i32 = if x1 - x > limit {
            x + limit
        } else {
            x1
        };
        let base: u32 = if k < colors.len() {
            colors[k]
        } else {
            colors[colors.len() - 1]
        };
        let color: u32 = scale_alpha_coverage(base, coverage);
        let ghost before = dl.words@;
        if alpha(color) > 0 {
            dl.push_rect(x, y, next - x, h, color);
        }
        proof {
            let now = visible_rect(x as int, y as int, next - x, h as int, color as int);
            let rest = run_words(
                colors@,
                k + 1,
                limit as int,
                y as int,
                h as int,
                next as int,
                x1 as int,
                coverage as int,
            );
            assert(before + (now + rest) =~= dl.words@ + rest);
        }
        x = next;
        k = k + 1;
    }
    proof {
        assert(dl.words@ =~= all);
    }
}

// ---- rows with partial edges --------------------------------------------------------------

/// A band of rows: where the shape begins and ends in whole pixels, and how
/// much of the edge pixels and of the rows it covers.
#[derive(Clone, Copy)]
pub struct SpanRow {
    pub y: i32,
    pub h: i32,
    /// First pixel touched, and first pixel covered from its left side.
    pub left_edge: i32,
    pub full_start: i32,
    /// End of the pixels covered to their right side, and of those touched.
    pub full_end: i32,
    pub right_edge: i32,
    pub left_coverage: u32,
    pub right_coverage: u32,
    pub y_coverage: u32,
}

/// Pixels of a row under one coverage.
pub struct Piece {
    pub x0: int,
    pub x1: int,
    pub coverage: int,
}

pub open spec fn max_of(a: int, b: int) -> int {
    if a < b {
        b
    } else {
        a
    }
}

pub open spec fn min_of(a: int, b: int) -> int {
    if a < b {
        a
    } else {
        b
    }
}

impl SpanRow {
    /// The left edge pixel is partial and inside the clip.
    pub open spec fn has_left(self, c0: int, c1: int) -> bool {
        self.left_edge < self.full_start && c0 <= self.left_edge < c1
    }

    /// The right edge pixel is partial, inside the clip, and not the left one.
    pub open spec fn has_right(self, c0: int, c1: int) -> bool {
        self.full_end < self.right_edge && c0 <= self.full_end < c1 && !(self.has_left(c0, c1)
            && self.full_end == self.left_edge)
    }

    pub open spec fn left_piece(self) -> Piece {
        Piece {
            x0: self.left_edge as int,
            x1: self.left_edge + 1,
            coverage: scaled(
                byte_scale(self.left_coverage as int),
                byte_scale(self.y_coverage as int),
            ),
        }
    }

    pub open spec fn inner_piece(self, c0: int, c1: int) -> Piece {
        Piece {
            x0: max_of(self.full_start as int, c0),
            x1: min_of(self.full_end as int, c1),
            coverage: self.y_coverage as int,
        }
    }

    pub open spec fn right_piece(self) -> Piece {
        Piece {
            x0: self.full_end as int,
            x1: self.full_end + 1,
            coverage: scaled(
                byte_scale(self.right_coverage as int),
                byte_scale(self.y_coverage as int),
            ),
        }
    }

    /// The row comes from a stretch of some width: edges are at most a pixel
    /// wide and the left one is not right of the right one.
    pub open spec fn from_stretch(self) -> bool {
        &&& self.left_edge <= self.full_start <= self.left_edge + 1
        &&& self.full_end <= self.right_edge <= self.full_end + 1
        &&& self.left_edge <= self.full_end
    }
}

/// The pieces of a row follow each other from left to right without sharing a
/// pixel, and all of them lie inside the clip.
pub proof fn law_pieces_are_disjoint(row: SpanRow, c0: int, c1: int)
    requires
        row.from_stretch(),
        c0 <= c1,
    ensures
        ({
            let (left, inner, right) = (row.left_piece(), row.inner_piece(c0, c1), row.right_piece());
            &&& row.has_left(c0, c1) ==> c0 <= left.x0 < left.x1 <= c1
            &&& inner.x0 < inner.x1 ==> c0 <= inner.x0 && inner.x1 <= c1
            &&& row.has_right(c0, c1) ==> c0 <= right.x0 < right.x1 <= c1
            &&& row.has_left(c0, c1) && inner.x0 < inner.x1 ==> left.x1 <= inner.x0
            &&& row.has_right(c0, c1) && inner.x0 < inner.x1 ==> inner.x1 <= right.x0
            &&& row.has_left(c0, c1) && row.has_right(c0, c1) ==> left.x1 <= right.x0
        }),
{
}

/// Colours of a row: of both edge pixels, and of the runs between them.
pub struct SpanColors<'a> {
    pub left: u32,
    pub inner: &'a [u32],
    pub right: u32,
}

pub open spec fn piece_words(colors: Seq<u32>, limit: int, row: SpanRow, p: Piece) -> Seq<u32> {
    span_words(colors, limit, row.y as int, row.h as int, p.x0, p.x1, p.coverage)
}

/// The words of a row inside the clip.
pub open spec fn row_words(
    row: SpanRow,
    c0: int,
    c1: int,
    limit: int,
    left: u32,
    inner: Seq<u32>,
    right: u32,
) -> Seq<u32> {
    if row.y_coverage == 0 {
        Seq::empty()
    } else {
        (if row.has_left(c0, c1) {
            piece_words(seq![left], limit, row, row.left_piece())
        } else {
            Seq::empty()
        }) + piece_words(inner, limit, row, row.inner_piece(c0, c1)) + (if row.has_right(c0, c1) {
            piece_words(seq![right], limit, row, row.right_piece())
        } else {
            Seq::empty()
        })
    }
}

/// Paints a row with partial edges inside the clip `clip_x0..clip_x1`.
pub fn emit_fractional_span(
    dl: &mut DrawList,
    row: &SpanRow,
    clip_x0: i32,
    clip_x1: i32,
    limit: i32,
    colors: &SpanColors<'_>,
)
    requires
        colors.inner@.len() > 0,
        limit > 0,
        clip_x1 - clip_x0 <= i32::MAX,
    ensures
        final(dl).words@ == old(dl).words@ + row_words(
            *row,
            clip_x0 as int,
            clip_x1 as int,
            limit as int,
            colors.left,
            colors.inner@,
            colors.right,
        ),
{
    let ghost (c0, c1) = (clip_x0 as int, clip_x1 as int);
    let ghost start = dl.words@;
    proof {
        assert(start + Seq::<u32>::empty() =~= start);
    }
    if row.y_coverage == 0 {
        return;
    }
    let mut emitted_left: bool = false;
    let ghost mut left_words = Seq::<u32>::empty();
    if row.left_edge < row.full_start && row.left_edge >= clip_x0 && row.left_edge < clip_x1 {
        let mut one: Vec<u32> = Vec::new();
        one.push(colors.left);
        let coverage: u32 = coverage_mul(row.left_coverage, row.y_coverage);
        emit_rounded_span(
            dl,
            one.as_slice(),
            limit,
            row.y,
            row.h,
            row.left_edge,
            row.left_edge + 1,
            coverage,
        );
        emitted_left = true;
        proof {
            assert(one@ =~= seq![colors.left]);
            left_words = piece_words(seq![colors.left], limit as int, *row, row.left_piece());
        }
    }
    let ghost after_left = dl.words@;
    let inner_x0: i32 = if row.full_start < clip_x0 {
        clip_x0
    } else {
        row.full_start
    };
    let inner_x1: i32 = if row.full_end < clip_x1 {
        row.full_end
    } else {
        clip_x1
    };
    emit_rounded_span(
        dl,
        colors.inner,
        limit,
        row.y,
        row.h,
        inner_x0,
        inner_x1,
        row.y_coverage,
    );
    let ghost after_inner = dl.words@;
    let ghost mut right_words = Seq::<u32>::empty();
    if row.full_end < row.right_edge && row.full_end >= clip_x0 && row.full_end < clip_x1 && !(
    emitted_left && row.full_end == row.left_edge) {
        let mut one: Vec<u32> = Vec::new();
        one.push(colors.right);
        let coverage: u32 = coverage_mul(row.right_coverage, row.y_coverage);
        emit_rounded_span(
            dl,
            one.as_slice(),
            limit,
            row.y,
            row.h,
            row.full_end,
            row.full_end + 1,
            coverage,
        );
        proof {
            assert(one@ =~= seq![colors.right]);
            right_words = piece_words(seq![colors.right], limit as int, *row, row.right_piece());
        }
    }
    proof {
        let mid = piece_words(colors.inner@, limit as int, *row, row.inner_piece(c0, c1));
        assert(after_left =~= start + left_words);
        assert(after_inner =~= after_left + mid);
        assert(dl.words@ =~= after_inner + right_words);
        assert(dl.words@ =~= start + (left_words + mid + right_words));
    }
}

// ---- bands ------------------------------------------------------------------------------

/// The rows `y..y1` one by one, leaving out `mid0..mid1`.
pub open spec fn single_rows(y: int, y1: int, mid0: int, mid1: int) -> Seq<(int, int)>
    decreases y1 - y,
{
    if y >= y1 {
        Seq::empty()
    } else if mid0 <= y < mid1 {
        single_rows(y + 1, y1, mid0, mid1)
    } else {
        seq![(y, 1int)] + single_rows(y + 1, y1, mid0, mid1)
    }
}

/// The bands that a shape is painted in: its straight middle `mid0..mid1` in
/// one piece, then the other rows one by one. First row and number of rows.
pub open spec fn bands(y0: int, y1: int, mid0: int, mid1: int) -> Seq<(int, int)> {
    (if mid0 < mid1 {
        seq![(mid0, mid1 - mid0)]
    } else {
        Seq::empty()
    }) + single_rows(y0, y1, mid0, mid1)
}

/// Cuts the rows `y0..y1` into bands.
pub fn span_bands(y0: i32, y1: i32, mid0: i32, mid1: i32) -> (r: Vec<(i32, i32)>)
    requires
        mid1 - mid0 <= i32::MAX,
    ensures
        r@.len() == bands(y0 as int, y1 as int, mid0 as int, mid1 as int).len(),
        forall|i: int|
            #![trigger r@[i]]
            0 <= i < r@.len() ==> (r@[i].0 as int, r@[i].1 as int) == bands(
                y0 as int,
                y1 as int,
                mid0 as int,
                mid1 as int,
            )[i],
{
    let ghost all = bands(y0 as int, y1 as int, mid0 as int, mid1 as int);
    let mut r: Vec<(i32, i32)> = Vec::new();
    if mid0 < mid1 {
        r.push((mid0, mid1 - mid0));
    }
    let mut y: i32 = y0;
    while y < y1
        invariant
            y0 <= y || y == y0,
            y <= y1 || y == y0,
            r@.len() + single_rows(y as int, y1 as int, mid0 as int, mid1 as int).len()
                == all.len(),
            forall|i: int|
                #![trigger r@[i]]
                0 <= i < r@.len() ==> (r@[i].0 as int, r@[i].1 as int) == all[i],
            forall|i: int|
                #![trigger single_rows(y as int, y1 as int, mid0 as int, mid1 as int)[i]]
                0 <= i < single_rows(y as int, y1 as int, mid0 as int, mid1 as int).len()
                    ==> single_rows(y as int, y1 as int, mid0 as int, mid1 as int)[i]
                    == all[r@.len() + i],
        decreases y1 - y,
    {
        let ghost now = single_rows(y as int, y1 as int, mid0 as int, mid1 as int);
        let ghost later = single_rows(y + 1, y1 as int, mid0 as int, mid1 as int);
        let ghost had = r@.len() as int;
        if !(mid0 <= y && y < mid1) {
            r.push((y, 1));
            proof {
                assert(now[0] == (y as int, 1int));
                assert(all[had] == now[0]);
                assert forall|i: int| 0 <= i < later.len() implies #[trigger] later[i] == all[had
                    + 1 + i] by {
                    assert(later[i] == now[i + 1]);
                }
            }
        } else {
            proof {
                assert(now == later);
            }
        }
        y = y + 1;
    }
    r
}

/// Band `b` of a list holds row `y`.
pub open spec fn band_holds(b: (int, int), y: int) -> bool {
    b.0 <= y < b.0 + b.1
}

/// The bands cover every row exactly once.
pub proof fn law_bands_tile(y0: int, y1: int, mid0: int, mid1: int, y: int)
    requires
        y0 <= y < y1,
        mid0 < mid1 ==> y0 <= mid0 && mid1 <= y1,
    ensures
        ({
            let all = bands(y0, y1, mid0, mid1);
            &&& exists|i: int| 0 <= i < all.len() && #[trigger] band_holds(all[i], y)
            &&& forall|i: int, j: int|
                0 <= i < all.len() && 0 <= j < all.len() && #[trigger] band_holds(all[i], y)
                    && #[trigger] band_holds(all[j], y) ==> i == j
        }),
{
    let all = bands(y0, y1, mid0, mid1);
    let singles = single_rows(y0, y1, mid0, mid1);
    let skip: int = if mid0 < mid1 {
        1
    } else {
        0
    };
    lemma_single_rows(y0, y1, mid0, mid1, y);
    assert forall|i: int| skip <= i < all.len() implies #[trigger] all[i] == singles[i - skip] by {}
    if mid0 <= y < mid1 {
        assert(band_holds(all[0], y));
        assert forall|i: int| 0 <= i < all.len() && #[trigger] band_holds(all[i], y) implies i
            == 0 by {
            if i > 0 {
                assert(band_holds(singles[i - skip], y));
            }
        }
    } else {
        let k = choose|k: int| 0 <= k < singles.len() && #[trigger] band_holds(singles[k], y);
        assert(band_holds(all[k + skip], y));
        assert forall|i: int| 0 <= i < all.len() && #[trigger] band_holds(all[i], y) implies i == k
            + skip by {
            if i >= skip {
                assert(band_holds(singles[i - skip], y));
            }
        }
    }
}

proof fn lemma_single_rows(y0: int, y1: int, mid0: int, mid1: int, y: int)
    ensures
        ({
            let s = single_rows(y0, y1, mid0, mid1);
            &&& forall|k: int|
                0 <= k < s.len() && #[trigger] band_holds(s[k], y) ==> y0 <= y < y1 && !(mid0 <= y
                    < mid1)
            &&& (y0 <= y < y1 && !(mid0 <= y < mid1)) ==> exists|k: int|
                0 <= k < s.len() && #[trigger] band_holds(s[k], y)
            &&& forall|i: int, j: int|
                0 <= i < s.len() && 0 <= j < s.len() && #[trigger] band_holds(s[i], y)
                    && #[trigger] band_holds(s[j], y) ==> i == j
        }),
    decreases y1 - y0,
{
    if y0 < y1 {
        lemma_single_rows(y0 + 1, y1, mid0, mid1, y);
        let s = single_rows(y0, y1, mid0, mid1);
        let t = single_rows(y0 + 1, y1, mid0, mid1);
        if !(mid0 <= y0 < mid1) {
            assert(s[0] == (y0, 1int));
            assert forall|k: int| 0 < k < s.len() implies #[trigger] s[k] == t[k - 1] by {}
            assert forall|k: int| 0 <= k < s.len() && #[trigger] band_holds(s[k], y) implies y0 <= y
                < y1 && !(mid0 <= y < mid1) by {
                if k > 0 {
                    assert(band_holds(t[k - 1], y));
                }
            }
            if y0 <= y < y1 && !(mid0 <= y < mid1) {
                if y == y0 {
                    assert(band_holds(s[0], y));
                } else {
                    let k = choose|k: int| 0 <= k < t.len() && #[trigger] band_holds(t[k], y);
                    assert(s[k + 1] == t[k]);
                    assert(band_holds(s[k + 1], y));
                }
            }
            assert forall|i: int, j: int|
                0 <= i < s.len() && 0 <= j < s.len() && #[trigger] band_holds(s[i], y)
                    && #[trigger] band_holds(s[j], y) implies i == j by {
                if i > 0 {
                    assert(band_holds(t[i - 1], y));
                }
                if j > 0 {
                    assert(band_holds(t[j - 1], y));
                }
            }
        }
    }
}

// ---- arcs -------------------------------------------------------------------------------

/// Quarters of coverage of a row of an arc: none inside the hole.
pub open spec fn arc_row(quarters: Seq<u8>, x0: int, hole: Option<(i32, i32)>) -> Seq<u8> {
    Seq::new(
        quarters.len(),
        |i: int|
            if hole matches Some((h0, h1)) && h0 <= x0 + i < h1 {
                0
            } else {
                quarters[i]
            },
    )
}

/// The runs of equal coverage as rectangles.
pub open spec fn arc_words(runs: Seq<Run>, x0: int, y: int, color: u32) -> Seq<u32>
    decreases runs.len(),
{
    if runs.len() == 0 {
        Seq::empty()
    } else {
        let run = runs[0];
        visible_rect(
            x0 + run.start,
            y,
            run.end - run.start,
            1,
            quarter_covered(color, run.alpha as int),
        ) + arc_words(runs.drop_first(), x0, y, color)
    }
}

/// Paints one row of an arc: `quarters` is the coverage of the pixels from
/// `x0` on in quarters, and the pixels of `hole` are left out.
pub fn emit_arc_row(
    dl: &mut DrawList,
    y: i32,
    x0: i32,
    quarters: &[u8],
    hole: Option<(i32, i32)>,
    color: u32,
)
    requires
        quarters@.len() <= i32::MAX,
        x0 + quarters@.len() <= i32::MAX,
    ensures
        final(dl).words@ == old(dl).words@ + arc_words(
            row_runs(arc_row(quarters@, x0 as int, hole), 0),
            x0 as int,
            y as int,
            color,
        ),
{
    let n: usize = quarters.len();
    let ghost row = arc_row(quarters@, x0 as int, hole);
    let mut eff: Vec<u8> = Vec::new();
    let mut i: usize = 0;
    while i < n
        invariant
            n == quarters@.len(),
            i <= n,
            x0 + n <= i32::MAX,
            row == arc_row(quarters@, x0 as int, hole),
            eff@ == row.take(i as int),
        decreases n - i,
    {
        let x: i64 = x0 as i64 + i as i64;
        let inside: bool = match hole {
            Some((h0, h1)) => h0 as i64 <= x && x < h1 as i64,
            None => false,
        };
        eff.push(
            if inside {
                0
            } else {
                quarters[i]
            },
        );
        proof {
            assert(row.take(i + 1) =~= row.take(i as int).push(row[i as int]));
        }
        i = i + 1;
    }
    proof {
        assert(row.take(n as int) =~= row);
    }
    let ghost all = old(dl).words@ + arc_words(row_runs(row, 0), x0 as int, y as int, color);
    let mut x: usize = 0;
    while x < n
        invariant
            n == quarters@.len() <= i32::MAX,
            x <= n,
            x0 + n <= i32::MAX,
            eff@ == row,
            row.len() == n,
            dl.words@ + arc_words(row_runs(row, x as int), x0 as int, y as int, color) == all,
        decreases n - x,
    {
        let cov: u8 = eff[x];
        if cov == 0 {
            x = x + 1;
        } else {
            let start: usize = x;
            let ghost end = run_end(row, start as int, cov);
            proof {
                lemma_run_end(row, start as int, cov);
            }
            while x < n && eff[x] == cov
                invariant
                    start <= x <= n,
                    eff@ == row,
                    row.len() == n,
                    run_end(row, x as int, cov) == end,
                decreases n - x,
            {
                x = x + 1;
            }
            let shade: u32 = scale_alpha_quarters(color, cov);
            let ghost before = dl.words@;
            if alpha(shade) > 0 {
                let left: i32 = (x0 as i64 + start as i64) as i32;
                dl.push_rect(left, y, (x - start) as i32, 1, shade);
            }
            proof {
                let run = Run { start: start as int, end: x as int, alpha: cov };
                let rest = row_runs(row, x as int);
                let runs = row_runs(row, start as int);
                assert(runs =~= seq![run] + rest);
                assert(runs.drop_first() =~= rest);
                let now = visible_rect(
                    x0 + start,
                    y as int,
                    x - start,
                    1,
                    quarter_covered(color, cov as int),
                );
                let later = arc_words(rest, x0 as int, y as int, color);
                assert(before + (now + later) =~= dl.words@ + later);
            }
        }
    }
    proof {
        assert(row_runs(row, x as int) =~= Seq::<Run>::empty());
        assert(dl.words@ =~= all);
    }
}

// ---- staying on the screen ----------------------------------------------------------------

/// Record `i` of a sequence of rectangles lies inside an area, as the words are
/// read back.
pub open spec fn rect_inside(words: Seq<u32>, i: int, area: (int, int, int, int)) -> bool {
    let (x0, y0, x1, y1) = area;
    let (xy, wh) = (words[4 * i + 1], words[4 * i + 2]);
    &&& words[4 * i] == OP_RECT
    &&& x0 <= x_of(xy) && x_of(xy) + w_of(wh) <= x1
    &&& y0 <= y_of(xy) && y_of(xy) + h_of(wh) <= y1
}

/// The words are rectangles, each of them inside an area.
pub open spec fn rects_inside(words: Seq<u32>, area: (int, int, int, int)) -> bool {
    words.len() % 4 == 0 && forall|i: int|
        0 <= i < words.len() / 4 ==> #[trigger] rect_inside(words, i, area)
}

/// An area of the screen whose positions fit the words.
pub open spec fn on_screen(area: (int, int, int, int)) -> bool {
    let (x0, y0, x1, y1) = area;
    0 <= x0 && x1 < 0x8000 && 0 <= y0 && y1 < 0x8000
}

proof fn lemma_rects_join(a: Seq<u32>, b: Seq<u32>, area: (int, int, int, int))
    requires
        rects_inside(a, area),
        rects_inside(b, area),
    ensures
        rects_inside(a + b, area),
{
    let all = a + b;
    assert forall|i: int| 0 <= i < all.len() / 4 implies #[trigger] rect_inside(all, i, area) by {
        if i < a.len() / 4 {
            assert(rect_inside(a, i, area));
            assert(all[4 * i] == a[4 * i] && all[4 * i + 1] == a[4 * i + 1] && all[4 * i + 2]
                == a[4 * i + 2]);
        } else {
            let k = i - a.len() / 4;
            assert(rect_inside(b, k, area));
            assert(all[4 * i] == b[4 * k] && all[4 * i + 1] == b[4 * k + 1] && all[4 * i + 2]
                == b[4 * k + 2]);
        }
    }
}

proof fn lemma_visible_rect_inside(
    x: int,
    y: int,
    w: int,
    h: int,
    color: int,
    area: (int, int, int, int),
)
    requires
        on_screen(area),
        area.0 <= x && 0 <= w && x + w <= area.2,
        area.1 <= y && 0 <= h && y + h <= area.3,
    ensures
        rects_inside(visible_rect(x, y, w, h, color), area),
{
    law_packed_words_unpack(x, y);
    law_packed_words_unpack(w, h);
    let words = visible_rect(x, y, w, h, color);
    assert forall|i: int| 0 <= i < words.len() / 4 implies #[trigger] rect_inside(
        words,
        i,
        area,
    ) by {
        assert(i == 0);
    }
}

proof fn lemma_runs_on_screen(
    colors: Seq<u32>,
    k: int,
    limit: int,
    y: int,
    h: int,
    x: int,
    x1: int,
    coverage: int,
    area: (int, int, int, int),
)
    requires
        on_screen(area),
        area.0 <= x && x1 <= area.2,
        area.1 <= y && 0 <= h && y + h <= area.3,
    ensures
        rects_inside(run_words(colors, k, limit, y, h, x, x1, coverage), area),
    decreases x1 - x,
{
    if x < x1 && limit >= 1 {
        let next = if x + limit < x1 {
            x + limit
        } else {
            x1
        };
        let color = covered(run_color(colors, k), coverage);
        lemma_visible_rect_inside(x, y, next - x, h, color, area);
        lemma_runs_on_screen(colors, k + 1, limit, y, h, next, x1, coverage, area);
        lemma_rects_join(
            visible_rect(x, y, next - x, h, color),
            run_words(colors, k + 1, limit, y, h, next, x1, coverage),
            area,
        );
    }
}

proof fn lemma_piece_on_screen(
    colors: Seq<u32>,
    limit: int,
    row: SpanRow,
    p: Piece,
    area: (int, int, int, int),
)
    requires
        on_screen(area),
        p.x0 < p.x1 ==> area.0 <= p.x0 && p.x1 <= area.2,
        area.1 <= row.y && row.y + row.h <= area.3,
    ensures
        rects_inside(piece_words(colors, limit, row, p), area),
{
    if row.h > 0 && p.x0 < p.x1 {
        lemma_runs_on_screen(
            colors,
            0,
            limit,
            row.y as int,
            row.h as int,
            p.x0,
            p.x1,
            p.coverage,
            area,
        );
    }
}

/// Every rectangle painted for a row lies inside its clip and its rows: no
/// coordinate that comes back from the words is off the screen.
pub proof fn law_rows_stay_on_screen(
    row: SpanRow,
    clip: (int, int),
    limit: int,
    left: u32,
    inner: Seq<u32>,
    right: u32,
    area: (int, int, int, int),
)
    requires
        on_screen(area),
        area.0 <= clip.0 && clip.1 <= area.2,
        area.1 <= row.y && row.y + row.h <= area.3,
    ensures
        rects_inside(row_words(row, clip.0, clip.1, limit, left, inner, right), area),
{
    let (c0, c1) = clip;
    if row.y_coverage != 0 {
        let none = Seq::<u32>::empty();
        assert(rects_inside(none, area));
        let a = if row.has_left(c0, c1) {
            piece_words(seq![left], limit, row, row.left_piece())
        } else {
            none
        };
        let b = piece_words(inner, limit, row, row.inner_piece(c0, c1));
        let c = if row.has_right(c0, c1) {
            piece_words(seq![right], limit, row, row.right_piece())
        } else {
            none
        };
        if row.has_left(c0, c1) {
            lemma_piece_on_screen(seq![left], limit, row, row.left_piece(), area);
        }
        lemma_piece_on_screen(inner, limit, row, row.inner_piece(c0, c1), area);
        if row.has_right(c0, c1) {
            lemma_piece_on_screen(seq![right], limit, row, row.right_piece(), area);
        }
        lemma_rects_join(a, b, area);
        lemma_rects_join(a + b, c, area);
    }
}

/// Every rectangle painted for a row of an arc lies inside the stretch that the
/// row was sampled over.
pub proof fn law_arcs_stay_on_screen(
    quarters: Seq<u8>,
    x0: int,
    y: int,
    hole: Option<(i32, i32)>,
    color: u32,
    area: (int, int, int, int),
)
    requires
        on_screen(area),
        area.0 <= x0 && x0 + quarters.len() <= area.2,
        area.1 <= y && y + 1 <= area.3,
    ensures
        rects_inside(arc_words(row_runs(arc_row(quarters, x0, hole), 0), x0, y, color), area),
{
    let row = arc_row(quarters, x0, hole);
    lemma_runs_inside(row, 0);
    lemma_arc_words_inside(row_runs(row, 0), row.len() as int, x0, y, color, area);
}

proof fn lemma_arc_words_inside(
    runs: Seq<Run>,
    n: int,
    x0: int,
    y: int,
    color: u32,
    area: (int, int, int, int),
)
    requires
        on_screen(area),
        area.0 <= x0 && x0 + n <= area.2,
        area.1 <= y && y + 1 <= area.3,
        forall|j: int|
            #![trigger runs[j]]
            0 <= j < runs.len() ==> 0 <= runs[j].start < runs[j].end <= n,
    ensures
        rects_inside(arc_words(runs, x0, y, color), area),
    decreases runs.len(),
{
    if runs.len() > 0 {
        let run = runs[0];
        let shade = quarter_covered(color, run.alpha as int);
        let rest = runs.drop_first();
        assert forall|j: int| #![trigger rest[j]] 0 <= j < rest.len() implies 0 <= rest[j].start
            < rest[j].end <= n by {
            assert(rest[j] == runs[j + 1]);
        }
        lemma_visible_rect_inside(x0 + run.start, y, run.end - run.start, 1, shade, area);
        lemma_arc_words_inside(rest, n, x0, y, color, area);
        lemma_rects_join(
            visible_rect(x0 + run.start, y, run.end - run.start, 1, shade),
            arc_words(rest, x0, y, color),
            area,
        );
    }
}

// ---- gradients of three colours -----------------------------------------------------------

/// A gradient of three colours as two of two colours, one for each part of the
/// box.
#[derive(Clone, Copy)]
pub struct GradSplit {
    pub first: Fill,
    pub second: Fill,
    /// The box is cut from left to right, and not from top to bottom.
    pub along_x: bool,
    /// The first part lies left of, or above, the second one.
    pub first_low: bool,
}

/// A place between both ends of a gradient.
pub open spec fn strictly_inside(pos: u32) -> bool {
    above_zero(pos) && pos < F32_ONE
}

/// The two parts of a gradient whose middle colour has a place between its
/// ends.
pub open spec fn split_of(fill: Fill) -> Option<GradSplit> {
    match fill {
        Fill::Grad { from, via: Some((middle, pos)), to, dir } if strictly_inside(pos) => Some(
            GradSplit {
                first: Fill::Grad { from, via: None, to: middle, dir },
                second: Fill::Grad { from: middle, via: None, to, dir },
                along_x: is_horizontal(dir),
                first_low: dir != GRAD_TO_LEFT && dir != GRAD_TO_TOP,
            },
        ),
        _ => None,
    }
}

/// Splits a gradient of three colours.
pub fn split_gradient(fill: &Fill) -> (r: Option<GradSplit>)
    ensures
        r == split_of(*fill),
{
    match fill {
        Fill::Grad { from, via: Some((middle, pos)), to, dir } => {
            if !positive(*pos) || *pos >= F32_ONE {
                return None;
            }
            Some(
                GradSplit {
                    first: Fill::Grad { from: *from, via: None, to: *middle, dir: *dir },
                    second: Fill::Grad { from: *middle, via: None, to: *to, dir: *dir },
                    along_x: *dir == GRAD_TO_LEFT || *dir == GRAD_TO_RIGHT,
                    first_low: *dir != GRAD_TO_LEFT && *dir != GRAD_TO_TOP,
                },
            )
        },
        _ => None,
    }
}

/// Both parts of a split gradient meet in the middle colour and are split no
/// further.
pub proof fn law_split_parts_meet(fill: Fill)
    requires
        split_of(fill) is Some,
    ensures
        ({
            let sp = split_of(fill)->0;
            &&& split_of(sp.first) is None && split_of(sp.second) is None
            &&& (sp.first matches Fill::Grad { from: _a, via: _b, to, dir: _d } && (
            sp.second matches Fill::Grad { from, via: _v, to: _t, dir: _e } && to == from))
        }),
{
}

// ---- rounded boxes from baked discs -----------------------------------------------------------

/// A rectangle in half pixels.
#[derive(Clone, Copy)]
pub struct HalfRect {
    pub x0: i32,
    pub y0: i32,
    pub x1: i32,
    pub y1: i32,
}

impl HalfRect {
    pub open spec fn holds(self, x: int, y: int) -> bool {
        self.x0 <= x < self.x1 && self.y0 <= y < self.y1
    }
}

/// Half pixels that a corner of a box of this size takes along each edge: the
/// radius, but no more than half of the box.
pub open spec fn corner_size(w: int, h: int, r_px: int) -> int {
    min_of(2 * r_px, min_of(w, h))
}

/// The pieces of a rounded box: four corners, the band between them, and the
/// strips above and below the band.
pub open spec fn pieces_of(x0: int, y0: int, x1: int, y1: int, r_px: int) -> Seq<HalfRect> {
    let c = corner_size(x1 - x0, y1 - y0, r_px);
    let (l, t, r, b) = (2 * x0, 2 * y0, 2 * x1, 2 * y1);
    seq![
        half_rect(l, t, l + c, t + c),
        half_rect(r - c, t, r, t + c),
        half_rect(l, b - c, l + c, b),
        half_rect(r - c, b - c, r, b),
        half_rect(l, t + c, r, b - c),
        half_rect(l + c, t, r - c, t + c),
        half_rect(l + c, b - c, r - c, b),
    ]
}

pub open spec fn half_rect(x0: int, y0: int, x1: int, y1: int) -> HalfRect {
    HalfRect { x0: x0 as i32, y0: y0 as i32, x1: x1 as i32, y1: y1 as i32 }
}

/// Twice the number is an `i32`, so that it can be given in half pixels.
pub open spec fn in_half_pixels(x: int) -> bool {
    -0x4000_0000 <= x <= 0x3fff_ffff
}

/// Cuts a rounded box with edges at whole pixels into pieces.
pub fn disc_pieces(x0: i32, y0: i32, x1: i32, y1: i32, r_px: u32) -> (r: Vec<HalfRect>)
    requires
        x0 <= x1 && in_half_pixels(x0 as int) && in_half_pixels(x1 as int),
        y0 <= y1 && in_half_pixels(y0 as int) && in_half_pixels(y1 as int),
    ensures
        r@ == pieces_of(x0 as int, y0 as int, x1 as int, y1 as int, r_px as int),
{
    let (w, h): (i32, i32) = (x1 - x0, y1 - y0);
    let small: i32 = if w < h {
        w
    } else {
        h
    };
    let c: i32 = if 2 * (r_px as u64) < small as u64 {
        2 * (r_px as i32)
    } else {
        small
    };
    let (l, t, r, b): (i32, i32, i32, i32) = (2 * x0, 2 * y0, 2 * x1, 2 * y1);
    let mut out: Vec<HalfRect> = Vec::new();
    out.push(HalfRect { x0: l, y0: t, x1: l + c, y1: t + c });
    out.push(HalfRect { x0: r - c, y0: t, x1: r, y1: t + c });
    out.push(HalfRect { x0: l, y0: b - c, x1: l + c, y1: b });
    out.push(HalfRect { x0: r - c, y0: b - c, x1: r, y1: b });
    out.push(HalfRect { x0: l, y0: t + c, x1: r, y1: b - c });
    out.push(HalfRect { x0: l + c, y0: t, x1: r - c, y1: t + c });
    out.push(HalfRect { x0: l + c, y0: b - c, x1: r - c, y1: b });
    proof {
        assert(out@ =~= pieces_of(x0 as int, y0 as int, x1 as int, y1 as int, r_px as int));
    }
    out
}

/// The pieces of a rounded box leave no gap and do not overlap: each half pixel
/// of the box lies in exactly one of them, and no other half pixel in any.
pub proof fn law_disc_pieces_tile(x0: int, y0: int, x1: int, y1: int, r_px: int, x: int, y: int)
    requires
        x0 <= x1 && in_half_pixels(x0) && in_half_pixels(x1),
        y0 <= y1 && in_half_pixels(y0) && in_half_pixels(y1),
        0 <= r_px,
    ensures
        ({
            let p = pieces_of(x0, y0, x1, y1, r_px);
            &&& 2 * x0 <= x < 2 * x1 && 2 * y0 <= y < 2 * y1 <==> exists|k: int|
                0 <= k < p.len() && (#[trigger] p[k]).holds(x, y)
            &&& forall|i: int, k: int|
                0 <= i < p.len() && 0 <= k < p.len() && (#[trigger] p[i]).holds(x, y) && (
                #[trigger] p[k]).holds(x, y) ==> i == k
        }),
{
    let p = pieces_of(x0, y0, x1, y1, r_px);
    let c = corner_size(x1 - x0, y1 - y0, r_px);
    let (l, t, r, b) = (2 * x0, 2 * y0, 2 * x1, 2 * y1);
    assert(0 <= c && 2 * c <= r - l && 2 * c <= b - t);
    assert(p[0].holds(x, y) <==> l <= x < l + c && t <= y < t + c);
    assert(p[1].holds(x, y) <==> r - c <= x < r && t <= y < t + c);
    assert(p[2].holds(x, y) <==> l <= x < l + c && b - c <= y < b);
    assert(p[3].holds(x, y) <==> r - c <= x < r && b - c <= y < b);
    assert(p[4].holds(x, y) <==> l <= x < r && t + c <= y < b - c);
    assert(p[5].holds(x, y) <==> l + c <= x < r - c && t <= y < t + c);
    assert(p[6].holds(x, y) <==> l + c <= x < r - c && b - c <= y < b);
    assert forall|k: int| 0 <= k < p.len() && (#[trigger] p[k]).holds(x, y) implies l <= x < r && t
        <= y < b by {
        if k == 0 {
        } else if k == 1 {
        } else if k == 2 {
        } else if k == 3 {
        } else if k == 4 {
        } else if k == 5 {
        } else {
            assert(k == 6);
        }
    }
    assert forall|i: int, k: int|
        0 <= i < p.len() && 0 <= k < p.len() && (#[trigger] p[i]).holds(x, y) && (
        #[trigger] p[k]).holds(x, y) implies i == k by {
        assert(p[i].holds(x, y) && p[k].holds(x, y));
        assert(i == 0 || i == 1 || i == 2 || i == 3 || i == 4 || i == 5 || i == 6);
        assert(k == 0 || k == 1 || k == 2 || k == 3 || k == 4 || k == 5 || k == 6);
    }
}

/// The colour is taken anew every four pixels along a gradient that runs along
/// the row, and not within a row otherwise, for rows on screen.
pub proof fn law_runs_follow_the_gradient(from: u32, via: Option<(u32, u32)>, to: u32, dir: u32, c: u32)
    ensures
        run_limit(Fill::Flat(c)) > 0x7fff,
        dir == 2 || dir == 3 ==> run_limit(Fill::Grad { from, via, to, dir }) == 4,
        dir != 2 && dir != 3 ==> run_limit(Fill::Grad { from, via, to, dir }) > 0x7fff,
{
}

/// The corners of a rounded box are squares in its four corners, as long as the
/// radius, but no longer than half of the shorter side.
pub proof fn law_corners_have_the_radius(x0: int, y0: int, x1: int, y1: int, r_px: int)
    requires
        x0 <= x1 && in_half_pixels(x0) && in_half_pixels(x1),
        y0 <= y1 && in_half_pixels(y0) && in_half_pixels(y1),
        0 <= r_px,
    ensures
        ({
            let p = pieces_of(x0, y0, x1, y1, r_px);
            let c = p[0].x1 - p[0].x0;
            &&& 2 * r_px <= x1 - x0 && 2 * r_px <= y1 - y0 ==> c == 2 * r_px
            &&& x1 - x0 < 2 * r_px && x1 - x0 <= y1 - y0 ==> c == x1 - x0
            &&& y1 - y0 < 2 * r_px && y1 - y0 <= x1 - x0 ==> c == y1 - y0
            &&& p[0].x0 == 2 * x0 && p[0].y0 == 2 * y0
            &&& p[1].x1 == 2 * x1 && p[1].y0 == 2 * y0
            &&& p[2].x0 == 2 * x0 && p[2].y1 == 2 * y1
            &&& p[3].x1 == 2 * x1 && p[3].y1 == 2 * y1
            &&& forall|k: int|
                #![trigger p[k]]
                0 <= k < 4 ==> p[k].x1 - p[k].x0 == c && p[k].y1 - p[k].y0 == c
        }),
{
}

} // verus!
