//! What comes out where: boxes, edges, sprites, and rows of pixels.
use crate::color::{byte_scale, covered, quarter_covered, scaled};
use crate::drawlist::{law_packed_words_unpack, packed, rect_record};
use crate::fbits::{above_zero, is_nan, is_zero};
use crate::ge::{h_of, w_of, x_of, y_of};
use crate::glyph::{law_runs_are_of_one_alpha, law_runs_cover, lemma_runs_inside, row_runs, Run};
use crate::paint::{claims, edges_of, layers_of, nonzero, sprite_index, BoxStep, BoxStyle, Edge, Ink};
use crate::spans::{
    arc_row, arc_words, corner_is_from, row_words, run_color, run_words, span_words, split_of,
    visible_rect, Fill, SpanRow,
};
use vstd::prelude::*;

verus! {

// ---- boxes -----------------------------------------------------------------------------------

/// How far front a part of a box lies.
pub open spec fn layer_of(step: BoxStep) -> int {
    match step {
        BoxStep::Shadow(_) => 0,
        BoxStep::Arc => 1,
        BoxStep::Ring => 1,
        BoxStep::Gradient => 1,
        BoxStep::Fill => 1,
        BoxStep::InnerGradient => 2,
        BoxStep::InnerFill => 2,
        BoxStep::RoundedBorder => 3,
        BoxStep::BorderStrips => 3,
        BoxStep::BevelOuter => 4,
        BoxStep::BevelInner => 5,
    }
}

/// The parts of a box are painted from back to front: the shadow, the filling,
/// the border, the bevel from the outside in. No layer is painted twice.
pub proof fn law_boxes_are_painted_from_the_back(s: BoxStyle, i: int, j: int)
    requires
        0 <= i < j < s.steps().len(),
    ensures
        layer_of(s.steps()[i]) < layer_of(s.steps()[j]),
{
}

/// What of a box is painted. A gradient has one of four directions; a colour is
/// seen if its alpha is not zero. The filling is an arc where there is one, else
/// a gradient, else the background colour; a seen border on a filled box with
/// rounded corners is painted as a ring around the filling, another border by
/// itself, round or square; a shadow needs a filling; a bevel needs square
/// corners and no arc.
#[verifier::rlimit(50)]
pub proof fn law_what_a_box_paints(s: BoxStyle)
    ensures
        ({
            let all = s.steps();
            let (bg, grad) = (s.bg >= 0x100_0000, s.grad_dir <= 3);
            let border = above_zero(s.border_width) && s.border >= 0x100_0000;
            let (round, arc) = (above_zero(s.radius), above_zero(s.arc_width) && !is_zero(s.arc_sweep));
            let ring = border && round && (grad || bg);
            let ink = s.bevel_outer_light != 0 || s.bevel_outer_dark != 0 || s.bevel_inner_light != 0
                || s.bevel_inner_dark != 0;
            let bevel = ink && above_zero(s.bevel_width) && !round && !is_nan(s.radius) && !arc;
            &&& all.contains(BoxStep::Shadow(s.shadow)) <==> s.shadow > 0 && (bg || grad)
            &&& all.contains(BoxStep::Arc) <==> arc && bg
            &&& all.contains(BoxStep::Ring) <==> !arc && ring
            &&& all.contains(BoxStep::InnerGradient) <==> !arc && ring && grad
            &&& all.contains(BoxStep::InnerFill) <==> !arc && ring && !grad
            &&& all.contains(BoxStep::Gradient) <==> !arc && !ring && grad
            &&& all.contains(BoxStep::Fill) <==> !arc && !ring && !grad && bg
            &&& all.contains(BoxStep::RoundedBorder) <==> border && round && !ring
            &&& all.contains(BoxStep::BorderStrips) <==> border && !round
            &&& all.contains(BoxStep::BevelOuter) <==> bevel
            &&& all.contains(BoxStep::BevelInner) <==> bevel
        }),
{
    let all = s.steps();
    let (a, b) = (s.shadow_steps(), s.fill_steps());
    let (c, d) = (s.border_steps(), s.bevel_steps());
    assert forall|x: BoxStep| all.contains(x) <==> a.contains(x) || b.contains(x) || c.contains(x)
        || d.contains(x) by {
        lemma_in_four(a, b, c, d, x);
    }
    if a.len() > 0 {
        assert(a.contains(a[0]));
    }
    if b.len() > 0 {
        assert(b.contains(b[0]));
        if b.len() > 1 {
            assert(b.contains(b[1]));
        }
    }
    if c.len() > 0 {
        assert(c.contains(c[0]));
    }
    if d.len() > 0 {
        assert(d.contains(d[0]) && d.contains(d[1]));
    }
}

proof fn lemma_in_four(
    a: Seq<BoxStep>,
    b: Seq<BoxStep>,
    c: Seq<BoxStep>,
    d: Seq<BoxStep>,
    x: BoxStep,
)
    ensures
        (a + b + c + d).contains(x) <==> a.contains(x) || b.contains(x) || c.contains(x)
            || d.contains(x),
{
    let all = a + b + c + d;
    let (n, m, k) = (a.len() as int, b.len() as int, c.len() as int);
    if a.contains(x) {
        let i = choose|i: int| 0 <= i < a.len() && a[i] == x;
        assert(all[i] == x);
    }
    if b.contains(x) {
        let i = choose|i: int| 0 <= i < b.len() && b[i] == x;
        assert(all[n + i] == x);
    }
    if c.contains(x) {
        let i = choose|i: int| 0 <= i < c.len() && c[i] == x;
        assert(all[n + m + i] == x);
    }
    if d.contains(x) {
        let i = choose|i: int| 0 <= i < d.len() && d[i] == x;
        assert(all[n + m + k + i] == x);
    }
    if all.contains(x) {
        let i = choose|i: int| 0 <= i < all.len() && all[i] == x;
        if i < n {
            assert(a[i] == x);
        } else if i < n + m {
            assert(b[i - n] == x);
        } else if i < n + m + k {
            assert(c[i - n - m] == x);
        } else {
            assert(d[i - n - m - k] == x);
        }
    }
}

/// Light falls from the top left: of a bevel ring that fits, the top and left
/// edges have the light colour and the bottom and right ones the dark one, if it
/// is seen, and dark edges are painted over light ones.
pub proof fn law_light_falls_from_the_top_left(light: u32, dark: u32, fits: bool)
    ensures
        ({
            let all = edges_of(light, dark, fits);
            let (l, d) = (fits && light >= 0x100_0000, fits && dark >= 0x100_0000);
            &&& forall|i: int|
                #![trigger all[i]]
                0 <= i < all.len() ==> {
                    let (edge, color) = all[i];
                    let lit = edge == Edge::Top || edge == Edge::Left;
                    &&& lit ==> l && color == light
                    &&& !lit ==> d && color == dark
                }
            &&& forall|i: int, j: int|
                #![trigger all[i], all[j]]
                0 <= i < j < all.len() ==> ({
                    let (a, _c) = all[i];
                    let (b, _d) = all[j];
                    a != b && !((b == Edge::Top || b == Edge::Left) && (a == Edge::Bottom || a
                        == Edge::Right))
                })
            &&& all.len() == (if l {
                2int
            } else {
                0
            }) + (if d {
                2int
            } else {
                0
            })
        }),
{
}

/// The layers of a shadow reach farther down and out one after the other, and
/// each has at most about half of the alpha of the one before; a higher level
/// reaches at least as far.
pub proof fn law_shadows_fade(level: u32, i: int)
    requires
        0 <= i,
        i + 1 < layers_of(level).len(),
    ensures
        ({
            let (a, b) = (layers_of(level)[i], layers_of(level)[i + 1]);
            &&& a.down < b.down && a.spread < b.spread
            &&& 0 < b.alpha && 2 * b.alpha <= a.alpha
            &&& a.spread < a.down && b.spread < b.down
            &&& a.alpha < 32
        }),
        layers_of(level).len() == (if level == 1 {
            2int
        } else {
            3
        }),
        layers_of(1).last().down <= layers_of(2).last().down <= layers_of(3).last().down,
        level > 2 ==> layers_of(level) == layers_of(3),
{
}

/// The corners of a gradient on the side that it runs to have the second colour,
/// and the others the first; corners run clockwise from the top left.
#[verifier::rlimit(50)]
pub proof fn law_gradient_corners(dir: u32, corner: int)
    requires
        0 <= corner < 4,
    ensures
        ({
            let (top, right) = (corner < 2, corner == 1 || corner == 2);
            corner_is_from(dir, corner) == !(if dir == 1 {
                top
            } else if dir == 2 {
                !right
            } else if dir == 3 {
                right
            } else {
                !top
            })
        }),
{
}

/// A gradient of three colours is painted as two of two: the first from its
/// first colour to the middle one, the second on from there to its last colour;
/// both run the same way, and the first lies on the side that the gradient comes
/// from.
pub proof fn law_split_gradient_runs_on(from: u32, middle: u32, pos: u32, to: u32, dir: u32)
    requires
        above_zero(pos),
        pos < 0x3f80_0000,
    ensures
        ({
            let sp = split_of(Fill::Grad { from, via: Some((middle, pos)), to, dir });
            &&& sp is Some
            &&& sp->0.first == (Fill::Grad { from, via: None, to: middle, dir })
            &&& sp->0.second == (Fill::Grad { from: middle, via: None, to, dir })
            &&& sp->0.along_x == (dir == 2 || dir == 3)
            &&& sp->0.first_low == !(dir == 1 || dir == 2)
        }),
{
}

// ---- sprites -----------------------------------------------------------------------------------

/// A sprite shows cell after cell, each for as many frames as its step says, and
/// starts over after the last: `turn` rounds and `k` cells after it was started,
/// and for `j` frames more, it shows cell `k`.
pub proof fn law_sprites_play_in_order(
    start: u64,
    frame: u64,
    step: u16,
    frames: u16,
    turn: int,
    k: int,
    j: int,
)
    requires
        step > 0,
        0 <= k < frames,
        0 <= j < step,
        0 <= turn,
        start <= frame,
        frame == start + (turn * frames + k) * step + j,
    ensures
        sprite_index(frame, start, step, frames) == k,
{
    let n = turn * frames + k;
    let s = step as int;
    let e = frame - start;
    assert(frame.wrapping_sub(start) == e);
    assert(e / s == n) by (nonlinear_arith)
        requires
            e == n * s + j,
            0 <= j < s,
    ;
    let f = frames as int;
    assert(n % f == k) by (nonlinear_arith)
        requires
            n == turn * f + k,
            0 <= k < f,
    ;
}

// ---- claims --------------------------------------------------------------------------------------

/// What claims a point: text, an image with a texture, a background that is
/// seen, a gradient, looks that change, and the band of a border; a node with
/// none of them does not.
pub proof fn law_what_claims_a_point(ink: Ink)
    ensures
        ink.node_type == 1 ==> claims(ink),
        ink.node_type == 2 && ink.tex >= 0 ==> claims(ink),
        ink.bg >= 0x100_0000 ==> claims(ink),
        ink.grad_dir <= 3 ==> claims(ink),
        ink.has_variants ==> claims(ink),
        ink.in_band ==> claims(ink),
        ink.node_type != 1 && (ink.node_type != 2 || ink.tex < 0) && ink.bg < 0x100_0000
            && ink.grad_dir > 3 && !ink.has_variants && !ink.in_band ==> !claims(ink),
{
}

// ---- rows of pixels --------------------------------------------------------------------------------

/// One of the rectangles of a list, four words each, covers a pixel with a
/// colour.
pub open spec fn paints(words: Seq<u32>, x: int, y: int, c: u32) -> bool {
    exists|i: int|
        0 <= i < words.len() / 4 && (#[trigger] words[4 * i]) == 1 && x_of(words[4 * i + 1]) <= x
            < x_of(words[4 * i + 1]) + w_of(words[4 * i + 2]) && y_of(words[4 * i + 1]) <= y < y_of(
            words[4 * i + 1],
        ) + h_of(words[4 * i + 2]) && words[4 * i + 3] == c
}

proof fn lemma_paints_join(a: Seq<u32>, b: Seq<u32>, x: int, y: int, c: u32)
    requires
        a.len() % 4 == 0,
    ensures
        paints(a + b, x, y, c) <==> paints(a, x, y, c) || paints(b, x, y, c),
{
    let v = a + b;
    let n = a.len() as int / 4;
    assert forall|i: int| 0 <= i < n implies #[trigger] v[4 * i] == a[4 * i] && v[4 * i + 1] == a[4
        * i + 1] && v[4 * i + 2] == a[4 * i + 2] && v[4 * i + 3] == a[4 * i + 3] by {}
    if paints(a, x, y, c) {
        let i = choose|i: int|
            0 <= i < a.len() / 4 && (#[trigger] a[4 * i]) == 1 && x_of(a[4 * i + 1]) <= x < x_of(
                a[4 * i + 1],
            ) + w_of(a[4 * i + 2]) && y_of(a[4 * i + 1]) <= y < y_of(a[4 * i + 1]) + h_of(
                a[4 * i + 2],
            ) && a[4 * i + 3] == c;
        assert(v[4 * i] == a[4 * i]);
    }
    if paints(b, x, y, c) {
        let i = choose|i: int|
            0 <= i < b.len() / 4 && (#[trigger] b[4 * i]) == 1 && x_of(b[4 * i + 1]) <= x < x_of(
                b[4 * i + 1],
            ) + w_of(b[4 * i + 2]) && y_of(b[4 * i + 1]) <= y < y_of(b[4 * i + 1]) + h_of(
                b[4 * i + 2],
            ) && b[4 * i + 3] == c;
        assert(v[4 * (n + i)] == b[4 * i]);
        assert(v[4 * (n + i) + 1] == b[4 * i + 1] && v[4 * (n + i) + 2] == b[4 * i + 2]);
        assert(v[4 * (n + i) + 3] == b[4 * i + 3]);
    }
    if paints(v, x, y, c) {
        let i = choose|i: int|
            0 <= i < v.len() / 4 && (#[trigger] v[4 * i]) == 1 && x_of(v[4 * i + 1]) <= x < x_of(
                v[4 * i + 1],
            ) + w_of(v[4 * i + 2]) && y_of(v[4 * i + 1]) <= y < y_of(v[4 * i + 1]) + h_of(
                v[4 * i + 2],
            ) && v[4 * i + 3] == c;
        if i < n {
            assert(a[4 * i] == v[4 * i]);
        } else {
            assert(b[4 * (i - n)] == v[4 * i]);
            assert(b[4 * (i - n) + 1] == v[4 * i + 1] && b[4 * (i - n) + 2] == v[4 * i + 2]);
            assert(b[4 * (i - n) + 3] == v[4 * i + 3]);
        }
    }
}

/// Pixels `x0..x1` and rows `y0..y1` that words can hold.
pub open spec fn in_words(x0: int, x1: int, y0: int, y1: int) -> bool {
    0 <= x0 && x1 < 0x8000 && 0 <= y0 && y1 < 0x8000
}

proof fn lemma_visible_rect(x: int, y: int, w: int, h: int, color: int, px: int, py: int, c: u32)
    requires
        in_words(x, x + w, y, y + h),
        0 < w,
        0 < h,
        0 <= color <= u32::MAX,
    ensures
        ({
            let words = visible_rect(x, y, w, h, color);
            &&& words.len() % 4 == 0
            &&& paints(words, px, py, c) <==> x <= px < x + w && y <= py < y + h && c == color
                && color >= 0x100_0000
        }),
{
    law_packed_words_unpack(x, y);
    law_packed_words_unpack(w, h);
    let words = visible_rect(x, y, w, h, color);
    if color >= 0x100_0000 {
        let z = 0int;
        assert(words[4 * z] == 1);
        assert(words[4 * z + 1] == packed(x, y) as u32 && words[4 * z + 2] == packed(w, h) as u32);
        assert(words[4 * z + 3] == color);
        if paints(words, px, py, c) {
            let i = choose|i: int|
                0 <= i < words.len() / 4 && (#[trigger] words[4 * i]) == 1 && x_of(words[4 * i + 1])
                    <= px < x_of(words[4 * i + 1]) + w_of(words[4 * i + 2]) && y_of(
                    words[4 * i + 1],
                ) <= py < y_of(words[4 * i + 1]) + h_of(words[4 * i + 2]) && words[4 * i + 3] == c;
            assert(i == 0);
        }
    }
}

/// Rows of runs paint the pixels of their stretch and no other, each in the
/// colour of its run under the coverage, if that is seen: runs are `limit`
/// pixels long, and the last colour serves for all later ones.
pub proof fn law_runs_paint_their_pixels(
    colors: Seq<u32>,
    k: int,
    limit: int,
    y: int,
    h: int,
    x: int,
    x1: int,
    coverage: int,
    px: int,
    py: int,
    c: u32,
)
    requires
        colors.len() > 0,
        0 <= k,
        limit >= 1,
        0 < h,
        x <= x1,
        in_words(x, x1, y, y + h),
        0 <= coverage,
    ensures
        ({
            let words = run_words(colors, k, limit, y, h, x, x1, coverage);
            let at = k + (px - x) / limit;
            let color = if at < colors.len() {
                colors[at]
            } else {
                colors.last()
            };
            &&& words.len() % 4 == 0
            &&& paints(words, px, py, c) <==> x <= px < x1 && y <= py < y + h && c == covered(
                color,
                coverage,
            ) && c >= 0x100_0000
        }),
    decreases x1 - x,
{
    if x < x1 {
        let next = if x + limit < x1 {
            x + limit
        } else {
            x1
        };
        let color = run_color(colors, k);
        crate::color::law_coverage_of_a_color(color, coverage);
        let own = visible_rect(x, y, next - x, h, covered(color, coverage));
        let rest = run_words(colors, k + 1, limit, y, h, next, x1, coverage);
        lemma_visible_rect(x, y, next - x, h, covered(color, coverage), px, py, c);
        law_runs_paint_their_pixels(
            colors,
            k + 1,
            limit,
            y,
            h,
            next,
            x1,
            coverage,
            px,
            py,
            c,
        );
        lemma_paints_join(own, rest, px, py, c);
        if x <= px < next {
            assert((px - x) / limit == 0) by (nonlinear_arith)
                requires
                    0 <= px - x < limit,
            ;
        }
        if next <= px < x1 {
            assert(next == x + limit);
            assert((px - x) / limit == 1 + (px - next) / limit) by (nonlinear_arith)
                requires
                    px - next == px - x - limit,
                    limit >= 1,
            ;
        }
    } else {
        assert(!paints(Seq::<u32>::empty(), px, py, c));
    }
}

proof fn lemma_span_paints(
    colors: Seq<u32>,
    limit: int,
    y: int,
    h: int,
    x: int,
    x1: int,
    coverage: int,
    px: int,
    py: int,
    c: u32,
)
    requires
        colors.len() > 0,
        limit >= 1,
        0 < h,
        in_words(x, x1, y, y + h),
        0 <= coverage,
    ensures
        ({
            let words = span_words(colors, limit, y, h, x, x1, coverage);
            let at = (px - x) / limit;
            let color = if at < colors.len() {
                colors[at]
            } else {
                colors.last()
            };
            &&& words.len() % 4 == 0
            &&& paints(words, px, py, c) <==> x <= px < x1 && y <= py < y + h && c == covered(
                color,
                coverage,
            ) && c >= 0x100_0000
        }),
{
    let at = (px - x) / limit;
    let color = if at < colors.len() {
        colors[at]
    } else {
        colors.last()
    };
    crate::color::law_coverage_of_a_color(color, coverage);
    assert(!paints(Seq::<u32>::empty(), px, py, c));
    if x <= x1 {
        law_runs_paint_their_pixels(colors, 0, limit, y, h, x, x1, coverage, px, py, c);
    }
}

/// A row of a shape paints, inside the clip, its left edge pixel, its right edge
/// pixel and all between them: the edges in their own colours under their own
/// coverage times that of the row, the others in their runs' colours under that
/// of the row.
#[verifier::rlimit(50)]
pub proof fn law_rows_paint_their_pixels(
    row: SpanRow,
    c0: int,
    c1: int,
    limit: int,
    left: u32,
    inner: Seq<u32>,
    right: u32,
    px: int,
    py: int,
    c: u32,
)
    requires
        row.from_stretch(),
        inner.len() > 0,
        limit >= 1,
        0 < row.h,
        0 <= row.y && row.y + row.h < 0x8000,
        0 <= c0 <= c1 < 0x8000,
        0 < row.y_coverage <= 255,
        row.left_coverage <= 255,
        row.right_coverage <= 255,
    ensures
        ({
            let words = row_words(row, c0, c1, limit, left, inner, right);
            let at_left = row.left_edge < row.full_start && px == row.left_edge;
            let at_right = row.full_end < row.right_edge && px == row.full_end && !at_left;
            let start = if row.full_start < c0 {
                c0
            } else {
                row.full_start as int
            };
            let run = (px - start) / limit;
            let color = if run < inner.len() {
                inner[run]
            } else {
                inner.last()
            };
            let shade = if at_left {
                covered(left, scaled(row.left_coverage as int, row.y_coverage as int))
            } else if at_right {
                covered(right, scaled(row.right_coverage as int, row.y_coverage as int))
            } else {
                covered(color, row.y_coverage as int)
            };
            let there = at_left || at_right || row.full_start <= px < row.full_end;
            paints(words, px, py, c) <==> c0 <= px < c1 && row.y <= py < row.y + row.h && there && c
                == shade && c >= 0x100_0000
        }),
{
    let (y, h) = (row.y as int, row.h as int);
    let (l, m, r) = (row.left_piece(), row.inner_piece(c0, c1), row.right_piece());
    let empty = Seq::<u32>::empty();
    assert(!paints(empty, px, py, c));
    crate::color::law_coverage_product(row.left_coverage as int, row.y_coverage as int);
    crate::color::law_coverage_product(row.right_coverage as int, row.y_coverage as int);
    let a = if row.has_left(c0, c1) {
        span_words(seq![left], limit, y, h, l.x0, l.x1, l.coverage)
    } else {
        empty
    };
    let b = span_words(inner, limit, y, h, m.x0, m.x1, m.coverage);
    let d = if row.has_right(c0, c1) {
        span_words(seq![right], limit, y, h, r.x0, r.x1, r.coverage)
    } else {
        empty
    };
    if row.has_left(c0, c1) {
        lemma_span_paints(seq![left], limit, y, h, l.x0, l.x1, l.coverage, px, py, c);
    }
    lemma_span_paints(inner, limit, y, h, m.x0, m.x1, m.coverage, px, py, c);
    if row.has_right(c0, c1) {
        lemma_span_paints(seq![right], limit, y, h, r.x0, r.x1, r.coverage, px, py, c);
    }
    lemma_paints_join(a, b, px, py, c);
    lemma_paints_join(a + b, d, px, py, c);
    assert(row_words(row, c0, c1, limit, left, inner, right) == a + b + d);
    assert(seq![left].last() == left && seq![right].last() == right);
}

proof fn lemma_arc_paints(runs: Seq<Run>, x0: int, y: int, color: u32, n: int, px: int, py: int, c: u32)
    requires
        0 <= x0,
        x0 + n < 0x8000,
        0 <= y < 0x7fff,
        forall|i: int|
            #![trigger runs[i]]
            0 <= i < runs.len() ==> 0 <= runs[i].start < runs[i].end <= n,
    ensures
        ({
            let words = arc_words(runs, x0, y, color);
            &&& words.len() % 4 == 0
            &&& paints(words, px, py, c) <==> py == y && c >= 0x100_0000 && exists|i: int|
                #![trigger runs[i]]
                0 <= i < runs.len() && runs[i].start <= px - x0 < runs[i].end && c
                    == quarter_covered(color, runs[i].alpha as int)
        }),
    decreases runs.len(),
{
    if runs.len() == 0 {
        assert(!paints(Seq::<u32>::empty(), px, py, c));
    } else {
        let run = runs[0];
        let rest = runs.drop_first();
        assert forall|i: int| #![trigger rest[i]] 0 <= i < rest.len() implies 0 <= rest[i].start
            < rest[i].end <= n by {
            assert(rest[i] == runs[i + 1]);
        }
        lemma_arc_paints(rest, x0, y, color, n, px, py, c);
        let shade = quarter_covered(color, run.alpha as int);
        crate::pictures::law_quarters(color, run.alpha as int);
        let own = visible_rect(x0 + run.start, y, run.end - run.start, 1, shade);
        if run.alpha < 4 {
            crate::arith::lemma_mul_bounds(
                color as int / 0x100_0000,
                run.alpha as int,
                255,
                3,
            );
            let part = ((color as int / 0x100_0000) * run.alpha + 2) / 4;
            assert(0 <= part <= 255);
            assert(shade == color as int % 0x100_0000 + 0x100_0000 * part);
        }
        assert(0 <= shade <= u32::MAX);
        lemma_visible_rect(x0 + run.start, y, run.end - run.start, 1, shade, px, py, c);
        lemma_paints_join(own, arc_words(rest, x0, y, color), px, py, c);
        if exists|i: int|
            #![trigger runs[i]]
            0 <= i < runs.len() && runs[i].start <= px - x0 < runs[i].end && c == quarter_covered(
                color,
                runs[i].alpha as int,
            ) {
            let i = choose|i: int|
                #![trigger runs[i]]
                0 <= i < runs.len() && runs[i].start <= px - x0 < runs[i].end && c
                    == quarter_covered(color, runs[i].alpha as int);
            if i > 0 {
                assert(rest[i - 1] == runs[i]);
            }
        }
        if exists|i: int|
            #![trigger rest[i]]
            0 <= i < rest.len() && rest[i].start <= px - x0 < rest[i].end && c == quarter_covered(
                color,
                rest[i].alpha as int,
            ) {
            let i = choose|i: int|
                #![trigger rest[i]]
                0 <= i < rest.len() && rest[i].start <= px - x0 < rest[i].end && c
                    == quarter_covered(color, rest[i].alpha as int);
            assert(runs[i + 1] == rest[i]);
        }
    }
}

/// A row of an arc paints a pixel in the colour under its quarters of coverage,
/// if that is seen, and none in the hole or without coverage.
pub proof fn law_arcs_paint_their_pixels(
    quarters: Seq<u8>,
    x0: int,
    hole: Option<(i32, i32)>,
    y: int,
    color: u32,
    px: int,
    py: int,
    c: u32,
)
    requires
        0 <= x0,
        x0 + quarters.len() < 0x8000,
        0 <= y < 0x7fff,
    ensures
        ({
            let words = arc_words(row_runs(arc_row(quarters, x0, hole), 0), x0, y, color);
            let in_hole = hole matches Some((h0, h1)) && h0 <= px < h1;
            paints(words, px, py, c) <==> py == y && x0 <= px < x0 + quarters.len() && !in_hole
                && quarters[px - x0] > 0 && c == quarter_covered(color, quarters[px - x0] as int)
                && c >= 0x100_0000
        }),
{
    let row = arc_row(quarters, x0, hole);
    let runs = row_runs(row, 0);
    let k = px - x0;
    lemma_runs_inside(row, 0);
    lemma_arc_paints(runs, x0, y, color, quarters.len() as int, px, py, c);
    if exists|i: int|
        #![trigger runs[i]]
        0 <= i < runs.len() && runs[i].start <= k < runs[i].end && c == quarter_covered(
            color,
            runs[i].alpha as int,
        ) {
        let i = choose|i: int|
            #![trigger runs[i]]
            0 <= i < runs.len() && runs[i].start <= k < runs[i].end && c == quarter_covered(
                color,
                runs[i].alpha as int,
            );
        law_runs_are_of_one_alpha(row, 0, i, k);
    }
    if 0 <= k < row.len() && row[k] != 0 {
        law_runs_cover(row, 0, k);
        let i = choose|i: int|
            #![trigger runs[i]]
            0 <= i < runs.len() && runs[i].start <= k < runs[i].end && runs[i].alpha == row[k];
        assert(runs[i].alpha == row[k]);
    }
}

} // verus!
