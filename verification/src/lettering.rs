//! How text on the draw list comes out on the screen.
use crate::constants::MAX_FONT_SLOTS;
use crate::drawlist::{glyph_record, glyph_words, law_packed_words_unpack, packed, Bounds, GlyphPos};
use crate::font::{grid_for, law_glyph_cells_in_texture, lemma_grid_bounds, Atlas, FontTexture};
use crate::ge::{
    cell_verts, decode_op, glyph_at, glyph_rects, glyph_run_step, glyph_sprite, glyph_sprites,
    run_verts, sprite_cols, Area, Decoded, GeStep, VertC, VertTC,
};
use crate::glyph::{
    glyph_row, in_some_run, law_recolored, law_runs_are_of_one_alpha, law_runs_cover,
    lemma_runs_inside, row_runs, text_alpha,
};
use crate::picture::{
    areas_after, drawn, first_len, is_whole, lemma_between, lemma_drawn_op, lemma_marks_one, marks,
    marks_of, Mark,
};
use crate::texture::SlotModel;
use vstd::prelude::*;

verus! {

// ---- from glyphs to words ---------------------------------------------------------------------

/// A glyph starts on the screen and its cell touches the clip.
pub open spec fn in_sight(
    g: GlyphPos,
    cell_w: int,
    cell_h: int,
    screen_w: int,
    screen_h: int,
    clip: Bounds,
) -> bool {
    &&& 0 <= g.x <= screen_w && 0 <= g.y <= screen_h
    &&& clip.x0 - cell_w < g.x < clip.x1
    &&& clip.y0 - cell_h < g.y < clip.y1
}

/// A glyph that is not in sight takes no part in a run.
pub proof fn law_hidden_glyphs_are_left_out(
    glyphs: Seq<GlyphPos>,
    k: int,
    n: int,
    cell_w: int,
    cell_h: int,
    screen_w: int,
    screen_h: int,
    clip: Bounds,
)
    requires
        0 <= k < n <= glyphs.len(),
        !in_sight(glyphs[k], cell_w, cell_h, screen_w, screen_h, clip),
    ensures
        glyph_words(glyphs, n, cell_w, cell_h, screen_w, screen_h, clip) == glyph_words(
            glyphs.remove(k),
            n - 1,
            cell_w,
            cell_h,
            screen_w,
            screen_h,
            clip,
        ),
    decreases n,
{
    let rest = glyphs.remove(k);
    if k < n - 1 {
        law_hidden_glyphs_are_left_out(
            glyphs,
            k,
            n - 1,
            cell_w,
            cell_h,
            screen_w,
            screen_h,
            clip,
        );
        assert(rest[n - 2] == glyphs[n - 1]);
    } else {
        lemma_words_of_prefix(glyphs, rest, n - 1, cell_w, cell_h, screen_w, screen_h, clip);
    }
}

proof fn lemma_words_of_prefix(
    a: Seq<GlyphPos>,
    b: Seq<GlyphPos>,
    n: int,
    cell_w: int,
    cell_h: int,
    screen_w: int,
    screen_h: int,
    clip: Bounds,
)
    requires
        0 <= n <= a.len(),
        n <= b.len(),
        forall|i: int| 0 <= i < n ==> a[i] == b[i],
    ensures
        glyph_words(a, n, cell_w, cell_h, screen_w, screen_h, clip) == glyph_words(
            b,
            n,
            cell_w,
            cell_h,
            screen_w,
            screen_h,
            clip,
        ),
    decreases n,
{
    if n > 0 {
        lemma_words_of_prefix(a, b, n - 1, cell_w, cell_h, screen_w, screen_h, clip);
    }
}

/// Glyphs in sight take two words each, in order.
proof fn lemma_words_in_sight(
    glyphs: Seq<GlyphPos>,
    n: int,
    cell_w: int,
    cell_h: int,
    screen_w: int,
    screen_h: int,
    clip: Bounds,
)
    requires
        0 <= n <= glyphs.len(),
        n <= 0xffff,
        forall|i: int|
            #![trigger glyphs[i]]
            0 <= i < n ==> in_sight(glyphs[i], cell_w, cell_h, screen_w, screen_h, clip),
    ensures
        ({
            let body = glyph_words(glyphs, n, cell_w, cell_h, screen_w, screen_h, clip);
            &&& body.len() == 2 * n
            &&& forall|i: int|
                #![trigger glyphs[i]]
                0 <= i < n ==> body[2 * i] == packed(glyphs[i].x as int, glyphs[i].y as int) as u32
                    && body[2 * i + 1] == glyphs[i].gid
        }),
    decreases n,
{
    if n > 0 {
        lemma_words_in_sight(glyphs, n - 1, cell_w, cell_h, screen_w, screen_h, clip);
        let before = glyph_words(glyphs, n - 1, cell_w, cell_h, screen_w, screen_h, clip);
        let body = glyph_words(glyphs, n, cell_w, cell_h, screen_w, screen_h, clip);
        let g = glyphs[n - 1];
        assert(in_sight(g, cell_w, cell_h, screen_w, screen_h, clip));
        assert(body == before + seq![packed(g.x as int, g.y as int) as u32, g.gid as u32]);
        assert forall|i: int| #![trigger glyphs[i]] 0 <= i < n implies body[2 * i] == packed(
            glyphs[i].x as int,
            glyphs[i].y as int,
        ) as u32 && body[2 * i + 1] == glyphs[i].gid by {
            if i < n - 1 {
                assert(body[2 * i] == before[2 * i] && body[2 * i + 1] == before[2 * i + 1]);
            }
        }
    }
}

// ---- glyphs from a texture ----------------------------------------------------------------------

proof fn lemma_known_sprites(
    words: Seq<u32>,
    body: int,
    g: int,
    count: int,
    color: u32,
    atlas: Atlas,
    cols: int,
)
    requires
        0 <= g <= count,
        forall|k: int|
            #![trigger glyph_at(words, body, k)]
            g <= k < count ==> glyph_at(words, body, k) < atlas.glyph_count,
    ensures
        ({
            let v = glyph_sprites(words, body, g, count, color, atlas, cols);
            &&& v.len() == 2 * (count - g)
            &&& forall|k: int|
                #![trigger glyph_at(words, body, k)]
                g <= k < count ==> {
                    let pair = glyph_sprite(
                        words[body + 2 * k],
                        glyph_at(words, body, k),
                        color,
                        atlas,
                        cols,
                    );
                    v[2 * (k - g)] == pair[0] && v[2 * (k - g) + 1] == pair[1]
                }
        }),
    decreases count - g,
{
    if g < count {
        lemma_known_sprites(words, body, g + 1, count, color, atlas, cols);
        let v = glyph_sprites(words, body, g, count, color, atlas, cols);
        let rest = glyph_sprites(words, body, g + 1, count, color, atlas, cols);
        assert(glyph_at(words, body, g) < atlas.glyph_count);
        let own = glyph_sprite(words[body + 2 * g], glyph_at(words, body, g), color, atlas, cols);
        assert(v == own + rest);
        assert forall|k: int| #![trigger glyph_at(words, body, k)] g <= k < count implies {
            let pair = glyph_sprite(
                words[body + 2 * k],
                glyph_at(words, body, k),
                color,
                atlas,
                cols,
            );
            v[2 * (k - g)] == pair[0] && v[2 * (k - g) + 1] == pair[1]
        } by {
            if k > g {
                assert(v[2 * (k - g)] == rest[2 * (k - g - 1)]);
                assert(v[2 * (k - g) + 1] == rest[2 * (k - g - 1) + 1]);
            }
        }
    }
}

/// A glyph of the coverage texture, from its cell in the texture to its cell on
/// the screen.
pub open spec fn glyph_mark(slot: u8, g: GlyphPos, color: u32, atlas: Atlas, cols: int) -> Mark {
    let (w, h) = (atlas.cell_w * atlas.raster_density, atlas.cell_h * atlas.raster_density);
    let (u, v) = ((g.gid as int % cols) * w, (g.gid as int / cols) * h);
    Mark::Glyph(
        slot,
        VertTC { u: u as i16, v: v as i16, color, x: g.x as i16, y: g.y as i16 },
        VertTC {
            u: (u + w) as i16,
            v: (v + h) as i16,
            color,
            x: (g.x + atlas.cell_w) as i16,
            y: (g.y + atlas.cell_h) as i16,
        },
    )
}

proof fn lemma_glyph_mark(
    slot: u8,
    word: u32,
    g: GlyphPos,
    color: u32,
    atlas: Atlas,
    cols: int,
)
    requires
        atlas.wf(),
        g.gid < atlas.glyph_count,
        0 <= g.x < 0x7000,
        0 <= g.y < 0x7000,
        word == packed(g.x as int, g.y as int) as u32,
        grid_for(atlas.glyph_count as int, atlas.cov_w(), atlas.cov_h()) is Some,
        ({
            let (c, _w, _h) = grid_for(atlas.glyph_count as int, atlas.cov_w(), atlas.cov_h())->0;
            cols == c
        }),
    ensures
        ({
            let pair = glyph_sprite(word, g.gid as int, color, atlas, cols);
            Mark::Glyph(slot, pair[0], pair[1]) == glyph_mark(slot, g, color, atlas, cols)
        }),
{
    law_packed_words_unpack(g.x as int, g.y as int);
    law_glyph_cells_in_texture(
        atlas.glyph_count as int,
        atlas.cov_w(),
        atlas.cov_h(),
        g.gid as int,
    );
    let (w, h) = (atlas.cov_w(), atlas.cov_h());
    let (u, v) = ((g.gid as int % cols) * w, (g.gid as int / cols) * h);
    assert(crate::arith::wrap16(u) == u && crate::arith::wrap16(v) == v);
    assert(crate::arith::wrap16(u + w) == u + w && crate::arith::wrap16(v + h) == v + h);
}

/// The glyphs of a run whose font has a coverage texture are drawn one by one:
/// each where it was put, in the size of its cell and in the colour of the run,
/// with its own cell of the texture.
#[verifier::spinoff_prover]
#[verifier::rlimit(60)]
pub proof fn law_glyphs_are_drawn(
    before: Seq<u32>,
    slot: u8,
    color: u32,
    glyphs: Seq<GlyphPos>,
    cell_w: int,
    cell_h: int,
    screen_w: int,
    screen_h: int,
    clip: Bounds,
    after: Seq<u32>,
    areas: Seq<Area>,
    slots: Seq<SlotModel>,
    atlases: Seq<Option<Atlas>>,
    atlas: Atlas,
    tex: FontTexture,
)
    requires
        is_whole(before),
        0 < glyphs.len() <= 0xffff,
        0 <= screen_w < 0x7000,
        0 <= screen_h < 0x7000,
        slot < atlases.len(),
        atlases[slot as int] == Some(atlas),
        atlas.wf(),
        atlas.slot < MAX_FONT_SLOTS,
        tex.wf(),
        tex.matches(atlas, tex.source_id),
        forall|i: int|
            #![trigger glyphs[i]]
            0 <= i < glyphs.len() ==> in_sight(
                glyphs[i],
                cell_w,
                cell_h,
                screen_w,
                screen_h,
                clip,
            ) && glyphs[i].gid < atlas.glyph_count,
    ensures
        ({
            let body = glyph_words(
                glyphs,
                glyphs.len() as int,
                cell_w,
                cell_h,
                screen_w,
                screen_h,
                clip,
            );
            drawn(before + glyph_record(slot, color, body) + after, areas, slots, atlases, false)
                == drawn(before, areas, slots, atlases, false) + Seq::new(
                glyphs.len(),
                |i: int| glyph_mark(slot, glyphs[i], color, atlas, tex.cols as int),
            ) + drawn(after, areas_after(before, areas), slots, atlases, false)
        }),
{
    let n = glyphs.len() as int;
    let body = glyph_words(glyphs, n, cell_w, cell_h, screen_w, screen_h, clip);
    let op = glyph_record(slot, color, body);
    let cols = tex.cols as int;
    let open = areas_after(before, areas);
    lemma_words_in_sight(glyphs, n, cell_w, cell_h, screen_w, screen_h, clip);
    let meta = slot as int + 0x1_0000 * n;
    assert(op[1] == meta as u32 && op[0] == 3 && op[2] == color);
    assert(op[1] as int / 0x1_0000 == n && op[1] as int % 0x100 == slot);
    assert(first_len(op) == op.len());
    let v = glyph_sprites(op, 3, 0, n, color, atlas, cols);
    let step = GeStep::GlyphSprites(slot, v);
    let want = Seq::new(
        glyphs.len(),
        |i: int| glyph_mark(slot, glyphs[i], color, atlas, tex.cols as int),
    );
    assert forall|k: int| #![trigger glyph_at(op, 3, k)] 0 <= k < n implies glyph_at(op, 3, k)
        == glyphs[k].gid && op[3 + 2 * k] == packed(glyphs[k].x as int, glyphs[k].y as int) as u32 by {
        assert(op[3 + 2 * k] == body[2 * k] && op[3 + 2 * k + 1] == body[2 * k + 1]);
    }
    lemma_known_sprites(op, 3, 0, n, color, atlas, cols);
    assert forall|i: int| 0 <= i < n implies marks_of(step)[i] == want[i] by {
        assert(in_sight(glyphs[i], cell_w, cell_h, screen_w, screen_h, clip));
        assert(glyph_at(op, 3, i) == glyphs[i].gid);
        lemma_glyph_mark(slot, op[3 + 2 * i], glyphs[i], color, atlas, cols);
    }
    assert(marks_of(step) =~= want);
    lemma_marks_one(step);
    assert(glyph_run_step(op, 0, atlases, false) =~= seq![step]);
    assert(decode_op(op, 0, open, slots, atlases, false) == Some(
        Decoded { out: seq![step], next: op.len() as int, areas: open },
    )) by {
        reveal(decode_op);
    }
    lemma_drawn_op(op, open, slots, atlases, false);
    lemma_between(before, op, after, areas, slots, atlases, false);
}

// ---- glyphs as rectangles ------------------------------------------------------------------------

/// One of some rectangles, two corners each, covers a pixel with a colour.
pub open spec fn covered_by(v: Seq<VertC>, x: int, y: int, c: u32) -> bool {
    exists|i: int|
        0 <= i < v.len() / 2 && (#[trigger] v[2 * i]).x <= x < v[2 * i + 1].x && v[2 * i].y <= y
            < v[2 * i + 1].y && v[2 * i].color == c && v[2 * i + 1].color == c
}

proof fn lemma_covered_join(a: Seq<VertC>, b: Seq<VertC>, x: int, y: int, c: u32)
    requires
        a.len() % 2 == 0,
    ensures
        covered_by(a + b, x, y, c) <==> covered_by(a, x, y, c) || covered_by(b, x, y, c),
{
    let v = a + b;
    let n = a.len() as int / 2;
    if covered_by(a, x, y, c) {
        let i = choose|i: int|
            0 <= i < a.len() / 2 && (#[trigger] a[2 * i]).x <= x < a[2 * i + 1].x && a[2 * i].y
                <= y < a[2 * i + 1].y && a[2 * i].color == c && a[2 * i + 1].color == c;
        assert(v[2 * i] == a[2 * i] && v[2 * i + 1] == a[2 * i + 1]);
    }
    if covered_by(b, x, y, c) {
        let i = choose|i: int|
            0 <= i < b.len() / 2 && (#[trigger] b[2 * i]).x <= x < b[2 * i + 1].x && b[2 * i].y
                <= y < b[2 * i + 1].y && b[2 * i].color == c && b[2 * i + 1].color == c;
        assert(v[2 * (n + i)] == b[2 * i] && v[2 * (n + i) + 1] == b[2 * i + 1]);
    }
    if covered_by(v, x, y, c) {
        let i = choose|i: int|
            0 <= i < v.len() / 2 && (#[trigger] v[2 * i]).x <= x < v[2 * i + 1].x && v[2 * i].y
                <= y < v[2 * i + 1].y && v[2 * i].color == c && v[2 * i + 1].color == c;
        if i < n {
            assert(a[2 * i] == v[2 * i] && a[2 * i + 1] == v[2 * i + 1]);
        } else {
            assert(b[2 * (i - n)] == v[2 * i] && b[2 * (i - n) + 1] == v[2 * i + 1]);
        }
    }
}

/// A glyph at `(gx, gy)` shows at a pixel with a colour: that of the text with
/// the alpha that the coverage of the pixel makes of it, if there is any.
pub open spec fn inked(
    atlas: Atlas,
    gid: int,
    gx: int,
    gy: int,
    color: u32,
    x: int,
    y: int,
    c: u32,
) -> bool {
    let (w, h) = (atlas.cell_w as int, atlas.cell_h as int);
    let level = text_alpha(color, atlas.logical@[gid * (w * h) + ((y - gy) * w + (x - gx))]);
    &&& gx <= x < gx + w && gy <= y < gy + h
    &&& level > 0
    &&& c == color % 0x100_0000 + 0x100_0000 * level
}

proof fn lemma_run_inks(atlas: Atlas, gid: int, word: u32, row: int, color: u32, gx: int, gy: int, x: int, y: int, c: u32)
    requires
        atlas.wf(),
        0 <= row < atlas.cell_h,
        0 <= gx < 0x7000,
        0 <= gy < 0x7000,
        word == packed(gx, gy) as u32,
    ensures
        ({
            let v = run_verts(row_runs(glyph_row(atlas, gid, row, color), 0), word, row, color);
            &&& v.len() % 2 == 0
            &&& covered_by(v, x, y, c) <==> y == gy + row && inked(
                atlas,
                gid,
                gx,
                gy,
                color,
                x,
                y,
                c,
            )
        }),
{
    law_packed_words_unpack(gx, gy);
    let alphas = glyph_row(atlas, gid, row, color);
    let runs = row_runs(alphas, 0);
    let v = run_verts(runs, word, row, color);
    lemma_runs_inside(alphas, 0);
    assert forall|i: int| 0 <= i < runs.len() implies {
        let run = #[trigger] runs[i];
        &&& v[2 * i].x == gx + run.start && v[2 * i + 1].x == gx + run.end
        &&& v[2 * i].y == gy + row && v[2 * i + 1].y == gy + row + 1
        &&& v[2 * i].color == color % 0x100_0000 + 0x100_0000 * run.alpha
        &&& v[2 * i + 1].color == v[2 * i].color
    } by {
        let run = runs[i];
        law_recolored(color, run.alpha);
        assert((2 * i) / 2 == i && (2 * i) % 2 == 0);
        assert((2 * i + 1) / 2 == i && (2 * i + 1) % 2 == 1);
    }
    if covered_by(v, x, y, c) {
        let i = choose|i: int|
            0 <= i < v.len() / 2 && (#[trigger] v[2 * i]).x <= x < v[2 * i + 1].x && v[2 * i].y
                <= y < v[2 * i + 1].y && v[2 * i].color == c && v[2 * i + 1].color == c;
        let run = runs[i];
        law_runs_are_of_one_alpha(alphas, 0, i, x - gx);
    }
    if y == gy + row && inked(atlas, gid, gx, gy, color, x, y, c) {
        let k = x - gx;
        law_runs_cover(alphas, 0, k);
        let i = choose|i: int|
            #![trigger runs[i]]
            0 <= i < runs.len() && runs[i].start <= k < runs[i].end && runs[i].alpha == alphas[k];
        assert(v[2 * i].x <= x < v[2 * i + 1].x);
    }
}

proof fn lemma_cell_inks(atlas: Atlas, gid: int, word: u32, row: int, color: u32, gx: int, gy: int, x: int, y: int, c: u32)
    requires
        atlas.wf(),
        0 <= row <= atlas.cell_h,
        0 <= gx < 0x7000,
        0 <= gy < 0x7000,
        word == packed(gx, gy) as u32,
    ensures
        ({
            let v = cell_verts(atlas, gid, word, row, color);
            &&& v.len() % 2 == 0
            &&& covered_by(v, x, y, c) <==> y >= gy + row && inked(
                atlas,
                gid,
                gx,
                gy,
                color,
                x,
                y,
                c,
            )
        }),
    decreases atlas.cell_h - row,
{
    if row < atlas.cell_h {
        lemma_cell_inks(atlas, gid, word, row + 1, color, gx, gy, x, y, c);
        lemma_run_inks(atlas, gid, word, row, color, gx, gy, x, y, c);
        let own = run_verts(row_runs(glyph_row(atlas, gid, row, color), 0), word, row, color);
        lemma_covered_join(own, cell_verts(atlas, gid, word, row + 1, color), x, y, c);
    }
}

/// One of the glyphs from `g` on shows at a pixel with a colour.
pub open spec fn some_inked(
    glyphs: Seq<GlyphPos>,
    g: int,
    atlas: Atlas,
    color: u32,
    x: int,
    y: int,
    c: u32,
) -> bool {
    exists|k: int|
        #![trigger glyphs[k]]
        g <= k < glyphs.len() && glyphs[k].gid < atlas.glyph_count && inked(
            atlas,
            glyphs[k].gid as int,
            glyphs[k].x as int,
            glyphs[k].y as int,
            color,
            x,
            y,
            c,
        )
}

proof fn lemma_run_of_rects(
    words: Seq<u32>,
    glyphs: Seq<GlyphPos>,
    g: int,
    atlas: Atlas,
    color: u32,
    x: int,
    y: int,
    c: u32,
)
    requires
        atlas.wf(),
        0 <= g <= glyphs.len(),
        forall|k: int|
            #![trigger glyphs[k]]
            0 <= k < glyphs.len() ==> 0 <= glyphs[k].x < 0x7000 && 0 <= glyphs[k].y < 0x7000
                && words[3 + 2 * k] == packed(glyphs[k].x as int, glyphs[k].y as int) as u32
                && words[3 + 2 * k + 1] == glyphs[k].gid,
    ensures
        ({
            let v = glyph_rects(words, 3, g, glyphs.len() as int, color, atlas);
            &&& v.len() % 2 == 0
            &&& covered_by(v, x, y, c) <==> some_inked(glyphs, g, atlas, color, x, y, c)
        }),
    decreases glyphs.len() - g,
{
    let n = glyphs.len() as int;
    if g < n {
        lemma_run_of_rects(words, glyphs, g + 1, atlas, color, x, y, c);
        let p = glyphs[g];
        assert(glyph_at(words, 3, g) == p.gid);
        let rest = glyph_rects(words, 3, g + 1, n, color, atlas);
        let here = p.gid < atlas.glyph_count && inked(
            atlas,
            p.gid as int,
            p.x as int,
            p.y as int,
            color,
            x,
            y,
            c,
        );
        if p.gid < atlas.glyph_count {
            lemma_cell_inks(
                atlas,
                p.gid as int,
                words[3 + 2 * g],
                0,
                color,
                p.x as int,
                p.y as int,
                x,
                y,
                c,
            );
            lemma_covered_join(
                cell_verts(atlas, p.gid as int, words[3 + 2 * g], 0, color),
                rest,
                x,
                y,
                c,
            );
        }
        if some_inked(glyphs, g, atlas, color, x, y, c) && !here {
            let k = choose|k: int|
                #![trigger glyphs[k]]
                g <= k < glyphs.len() && glyphs[k].gid < atlas.glyph_count && inked(
                    atlas,
                    glyphs[k].gid as int,
                    glyphs[k].x as int,
                    glyphs[k].y as int,
                    color,
                    x,
                    y,
                    c,
                );
            assert(k > g);
            assert(some_inked(glyphs, g + 1, atlas, color, x, y, c));
        }
    } else {
        assert(!covered_by(Seq::<VertC>::empty(), x, y, c));
    }
}

/// Some of these marks covers a pixel with a colour.
pub open spec fn pixel_in(m: Seq<Mark>, x: int, y: int, c: u32) -> bool {
    exists|i: int|
        0 <= i < m.len() && (#[trigger] m[i] matches Mark::GlyphRect(a, b) && a.x <= x < b.x && a.y
            <= y < b.y && a.color == c && b.color == c)
}

/// Without a coverage texture the glyphs of a run are drawn pixel by pixel: a
/// pixel is covered by a colour just if a glyph of the run has ink there, and
/// the alpha of the colour is what the coverage of that pixel makes of it.
#[verifier::spinoff_prover]
#[verifier::rlimit(60)]
pub proof fn law_glyphs_without_a_texture(
    before: Seq<u32>,
    slot: u8,
    color: u32,
    glyphs: Seq<GlyphPos>,
    cell_w: int,
    cell_h: int,
    screen_w: int,
    screen_h: int,
    clip: Bounds,
    after: Seq<u32>,
    areas: Seq<Area>,
    slots: Seq<SlotModel>,
    atlases: Seq<Option<Atlas>>,
    atlas: Atlas,
    x: int,
    y: int,
    c: u32,
)
    requires
        is_whole(before),
        0 < glyphs.len() <= 0xffff,
        0 <= screen_w < 0x7000,
        0 <= screen_h < 0x7000,
        slot < atlases.len(),
        atlases[slot as int] == Some(atlas),
        atlas.wf(),
        forall|i: int|
            #![trigger glyphs[i]]
            0 <= i < glyphs.len() ==> in_sight(
                glyphs[i],
                cell_w,
                cell_h,
                screen_w,
                screen_h,
                clip,
            ),
    ensures
        ({
            let body = glyph_words(
                glyphs,
                glyphs.len() as int,
                cell_w,
                cell_h,
                screen_w,
                screen_h,
                clip,
            );
            let op = glyph_record(slot, color, body);
            let own = drawn(op, areas_after(before, areas), slots, atlases, true);
            &&& drawn(before + op + after, areas, slots, atlases, true) == drawn(
                before,
                areas,
                slots,
                atlases,
                true,
            ) + own + drawn(after, areas_after(before, areas), slots, atlases, true)
            &&& pixel_in(own, x, y, c) <==> some_inked(glyphs, 0, atlas, color, x, y, c)
        }),
{
    let n = glyphs.len() as int;
    let body = glyph_words(glyphs, n, cell_w, cell_h, screen_w, screen_h, clip);
    let op = glyph_record(slot, color, body);
    let open = areas_after(before, areas);
    lemma_words_in_sight(glyphs, n, cell_w, cell_h, screen_w, screen_h, clip);
    let meta = slot as int + 0x1_0000 * n;
    assert(op[1] == meta as u32 && op[0] == 3 && op[2] == color);
    assert(op[1] as int / 0x1_0000 == n && op[1] as int % 0x100 == slot);
    assert(first_len(op) == op.len());
    let v = glyph_rects(op, 3, 0, n, color, atlas);
    let step = GeStep::GlyphRects(v);
    assert forall|k: int| #![trigger glyphs[k]] 0 <= k < n implies 0 <= glyphs[k].x < 0x7000 && 0
        <= glyphs[k].y < 0x7000 && op[3 + 2 * k] == packed(
        glyphs[k].x as int,
        glyphs[k].y as int,
    ) as u32 && op[3 + 2 * k + 1] == glyphs[k].gid by {
        assert(op[3 + 2 * k] == body[2 * k] && op[3 + 2 * k + 1] == body[2 * k + 1]);
        assert(in_sight(glyphs[k], cell_w, cell_h, screen_w, screen_h, clip));
    }
    lemma_run_of_rects(op, glyphs, 0, atlas, color, x, y, c);
    lemma_marks_one(step);
    assert(glyph_run_step(op, 0, atlases, true) =~= seq![step]);
    assert(decode_op(op, 0, open, slots, atlases, true) == Some(
        Decoded { out: seq![step], next: op.len() as int, areas: open },
    )) by {
        reveal(decode_op);
    }
    lemma_drawn_op(op, open, slots, atlases, true);
    lemma_between(before, op, after, areas, slots, atlases, true);
    let m = marks_of(step);
    if covered_by(v, x, y, c) {
        let i = choose|i: int|
            0 <= i < v.len() / 2 && (#[trigger] v[2 * i]).x <= x < v[2 * i + 1].x && v[2 * i].y
                <= y < v[2 * i + 1].y && v[2 * i].color == c && v[2 * i + 1].color == c;
        assert(m[i] == Mark::GlyphRect(v[2 * i], v[2 * i + 1]));
    }
    if pixel_in(m, x, y, c) {
        let i = choose|i: int|
            0 <= i < m.len() && (#[trigger] m[i] matches Mark::GlyphRect(a, b) && a.x <= x < b.x
                && a.y <= y < b.y && a.color == c && b.color == c);
        assert(m[i] == Mark::GlyphRect(v[2 * i], v[2 * i + 1]));
        assert(v[2 * i].x <= x);
    }
}

} // verus!
