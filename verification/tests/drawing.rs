use pocketjs::clip::{clip_polygon, ClipStep};
use pocketjs::color::{alpha, coverage_mul, scale_alpha_coverage, scale_alpha_quarters, with_alpha_abgr};
use pocketjs::drawlist::{
    compositor_surface_frames, wh_word, xy_word, Bounds, DrawList, GlyphPos, TextHead,
};
use pocketjs::font::{build_font_texture, font_grid, Atlas, FontCache};
use pocketjs::ge::{apply_font_texture, apply_texture, flush, render, render_over, wh, xy, GeCmd};
use pocketjs::glyph::{count_glyph_runs, glyph_alpha, with_alpha};
use pocketjs::paint::{bevel_edges, box_route, shadow_layers, sprite_cell, BoxRoute, BoxStep, BoxStyle, Edge};
use pocketjs::spans::{
    corner_color, disc_pieces, emit_arc_row, emit_fractional_span, emit_rounded_span, gradient_run_limit, span_bands,
    split_gradient, vertical_gradient, Fill, SpanColors, SpanRow,
};
use pocketjs::style::PropTable;
use pocketjs::texture::{TexSlot, TexView, Texture};
use pocketjs::ui::Ui;

#[test]
fn words_hold_two_numbers() {
    assert_eq!(xy_word(1, 2), 0x0002_0001);
    assert_eq!(xy_word(-1, -2), 0xfffe_ffff);
    assert_eq!(xy(xy_word(-3, 400)), (-3, 400));
    assert_eq!(wh_word(480, 272), 0x0110_01e0);
    assert_eq!(wh(wh_word(480, 272)), (480, 272));
}

#[test]
fn colours_and_coverage() {
    assert_eq!(alpha(0x8012_3456), 0x80);
    assert_eq!(with_alpha_abgr(0xff12_3456, 0x40), 0x4012_3456);
    assert_eq!(coverage_mul(255, 255), 255);
    assert_eq!(coverage_mul(255, 77), 77);
    assert_eq!(coverage_mul(0, 77), 0);
    assert_eq!(scale_alpha_coverage(0xff00_00ff, 128), 0x8000_00ff);
    assert_eq!(scale_alpha_coverage(0xff00_00ff, 255), 0xff00_00ff);
    assert_eq!(alpha(scale_alpha_quarters(0xff00_0000, 0)), 0);
    assert_eq!(alpha(scale_alpha_quarters(0xff00_0000, 4)), 255);
    assert_eq!(alpha(scale_alpha_quarters(0xff00_0000, 2)), 128);
    assert_eq!(glyph_alpha(0xff00_0000, 255), 255);
    assert_eq!(glyph_alpha(0xff00_0000, 0), 0);
    assert_eq!(with_alpha(0x0012_3456, 0xff), 0xff12_3456);
}

#[test]
fn records_have_their_words() {
    let mut d = DrawList::new();
    d.push_rect(1, 2, 3, 4, 0xff00_ff00);
    assert_eq!(d.words, vec![1, 0x0002_0001, 0x0004_0003, 0xff00_ff00]);
    let mut d = DrawList::new();
    d.push_scissor(0, 0, 10, 20);
    d.push_scissor_pop();
    assert_eq!(d.words.len(), 4);
    assert_eq!(&d.words[1..3], &[0, 0x0014_000a]);
}

#[test]
fn surfaces_come_back_in_painting_order() {
    let mut d = DrawList::new();
    d.push_rect(0, 0, 1, 1, 0xffff_ffff);
    d.push_surface(7, (1, 2, 3, 4), -5, 6, 30, 40, true);
    d.push_text_run(
        TextHead {
            slot: 0,
            align: 0,
            x: 0,
            y: 0,
            box_w: 0,
            line_height: 0,
            color: 0xffff_ffff,
        },
        b"hello",
        None,
    );
    d.push_surface(8, (5, 6, 7, 8), 0, 0, 1, 1, false);
    let frames = compositor_surface_frames(&d.words);
    assert_eq!(frames.len(), 2);
    assert_eq!(frames[0].handle, 7);
    assert_eq!(frames[0].full, (1, 2, 3, 4));
    assert_eq!(frames[0].clip, (-5, 6, 30, 40));
    assert!(frames[0].focused);
    assert_eq!(frames[0].order, 4);
    assert_eq!(frames[1].handle, 8);
    assert!(!frames[1].focused);
    assert_eq!(frames[1].order, 4 + 9 + 8 + 2);
    // an unknown word ends the list
    assert_eq!(compositor_surface_frames(&[99, 1, 2]).len(), 0);
    assert_eq!(compositor_surface_frames(&d.words[..12]).len(), 0);
}

fn atlas() -> Atlas {
    // two glyphs of 2 by 2 pixels
    Atlas {
        slot: 0,
        glyph_count: 2,
        cell_w: 2,
        cell_h: 2,
        raster_density: 1,
        bitmap: vec![255, 255, 0, 128, 10, 20, 30, 40],
        logical: vec![255, 255, 0, 128, 10, 20, 30, 40],
    }
}

#[test]
fn glyph_runs_leave_out_what_is_off_screen() {
    let mut d = DrawList::new();
    let clip = Bounds { x0: 0, y0: 0, x1: 480, y1: 272 };
    let glyphs = [
        GlyphPos { x: 10, y: 20, gid: 1 },
        GlyphPos { x: -1, y: 20, gid: 2 },
        GlyphPos { x: 480, y: 20, gid: 3 },
        GlyphPos { x: 30, y: 20, gid: 4 },
    ];
    d.push_glyph_run(3, 0xff00_0000, &glyphs, 8, 8, 480, 272, clip);
    assert_eq!(d.words.len(), 3 + 2 * 2);
    assert_eq!(d.words[1], 3 | (2 << 16));
    assert_eq!(&d.words[3..], &[xy_word(10, 20), 1, xy_word(30, 20), 4]);
    let mut d = DrawList::new();
    d.push_glyph_run(3, 0xff00_0000, &glyphs[1..3], 8, 8, 480, 272, clip);
    assert!(d.words.is_empty());
}

#[test]
fn fonts_become_textures() {
    let a = atlas();
    let (cols, w, h) = font_grid(&a).unwrap();
    assert!(cols >= 1 && w * h >= 8);
    let t = build_font_texture(&a, 5).unwrap();
    assert_eq!((t.source_id, t.glyph_count, t.tex_w, t.tex_h), (5, 2, w, h));
    let mut cache = FontCache::new();
    assert!(cache.font_texture(&a, 5));
    assert!(cache.slots[0].is_some());
    cache.reset_fonts();
    assert!(cache.slots[0].is_none());
    let far = Atlas { slot: 16, ..atlas() };
    assert!(!cache.font_texture(&far, 5));
}

#[test]
fn glyph_rows_are_cut_into_runs_of_one_coverage() {
    let a = atlas();
    // row 0: one run of 255; row 1: a gap and a run of 128
    assert_eq!(count_glyph_runs(&a, 0, 0xffff_ffff), 2);
    // coverages of 10 and 20, and of 30 and 40, come out the same
    assert_eq!(count_glyph_runs(&a, 1, 0xffff_ffff), 2);
    assert_eq!(glyph_alpha(0xffff_ffff, 20), 17);
    assert_eq!(glyph_alpha(0xffff_ffff, 40), 34);
    assert_eq!(count_glyph_runs(&a, 1, 0x00ff_ffff), 0);
}

#[test]
fn draw_lists_become_commands() {
    let mut d = DrawList::new();
    d.push_rect(1, 2, 3, 4, 0xff00_0001);
    d.push_rect(5, 6, 7, 8, 0xff00_0002);
    d.push_scissor(10, 20, 30, 40);
    d.push_tex_quad(0, 0, 0, 2, 2, (0, 0, 0x3f80_0000, 0x3f80_0000), 0xffff_ffff);
    d.push_scissor_pop();
    d.push_tex_quad(9, 0, 0, 2, 2, (0, 0, 0, 0), 0xffff_ffff);
    let slots = vec![TexSlot {
        gen: 0,
        tex: Some(Texture {
            data: vec![0; 4],
            w: 1,
            h: 1,
            psm: 3,
            palette: None,
            linear: false,
            revision: 0,
        }),
    }];
    let cmds = render_over(&slots, &[], &d.words, false);
    assert!(matches!(cmds[0], GeCmd::Begin));
    match &cmds[1] {
        GeCmd::Sprites(v) => {
            assert_eq!(v.len(), 4);
            assert_eq!((v[0].x, v[0].y, v[0].color), (1, 2, 0xff00_0001));
            assert_eq!((v[1].x, v[1].y), (4, 6));
            assert_eq!((v[3].x, v[3].y, v[3].color), (12, 14, 0xff00_0002));
        }
        _ => panic!("rectangles are batched"),
    }
    assert!(matches!(cmds[2], GeCmd::Scissor(10, 20, 40, 60)));
    match &cmds[3] {
        GeCmd::TexSprites(h, v) => {
            assert_eq!(*h, 0);
            assert_eq!(v.len(), 2);
        }
        _ => panic!("a textured rectangle"),
    }
    assert!(matches!(cmds[4], GeCmd::Scissor(0, 0, 480, 272)));
    // a stale texture draws nothing
    assert!(matches!(cmds[5], GeCmd::End));
    assert_eq!(cmds.len(), 6);
}

#[test]
fn batches_are_cut_to_the_engine_limit() {
    assert_eq!(flush(0), vec![]);
    assert_eq!(flush(10), vec![(0, 10)]);
    let calls = flush(200_000);
    let total: u32 = calls.iter().map(|c| c.1).sum();
    assert_eq!(total, 200_000);
    let mut at = 0;
    for (from, n) in &calls {
        assert_eq!(*from, at);
        assert!(*n <= 65535);
        at += n;
    }
}

fn plain() -> BoxStyle {
    BoxStyle {
        bg: 0,
        border: 0,
        grad_dir: 0xffff_ffff,
        radius: 0,
        border_width: 0,
        shadow: 0,
        arc_width: 0,
        arc_sweep: 0,
        bevel_outer_light: 0,
        bevel_outer_dark: 0,
        bevel_inner_light: 0,
        bevel_inner_dark: 0,
        bevel_width: 0,
    }
}

#[test]
fn boxes_paint_from_back_to_front() {
    assert!(plain().paint_steps().is_empty());
    let one = 1.0f32.to_bits();
    let s = BoxStyle { bg: 0xff00_0000, shadow: 2, ..plain() };
    assert_eq!(s.paint_steps(), vec![BoxStep::Shadow(2), BoxStep::Fill]);
    let s = BoxStyle { bg: 0xff00_0000, border: 0xff00_0000, border_width: one, radius: one, ..plain() };
    assert_eq!(s.paint_steps(), vec![BoxStep::Ring, BoxStep::InnerFill]);
    let s = BoxStyle { border: 0xff00_0000, border_width: one, radius: one, ..plain() };
    assert_eq!(s.paint_steps(), vec![BoxStep::RoundedBorder]);
    let s = BoxStyle { border: 0xff00_0000, border_width: one, bevel_outer_light: 1, bevel_width: one, ..plain() };
    assert_eq!(s.paint_steps(), vec![BoxStep::BorderStrips, BoxStep::BevelOuter, BoxStep::BevelInner]);
    let s = BoxStyle { bg: 0xff00_0000, arc_width: one, arc_sweep: one, ..plain() };
    assert_eq!(s.paint_steps(), vec![BoxStep::Arc]);
    let s = BoxStyle { grad_dir: 3, ..plain() };
    assert_eq!(s.paint_steps(), vec![BoxStep::Gradient]);
}

#[test]
fn dark_bevel_edges_come_last() {
    assert_eq!(
        bevel_edges(0xff00_0001, 0xff00_0002, true),
        vec![
            (Edge::Top, 0xff00_0001),
            (Edge::Left, 0xff00_0001),
            (Edge::Bottom, 0xff00_0002),
            (Edge::Right, 0xff00_0002)
        ]
    );
    assert_eq!(bevel_edges(0, 0xff00_0002, true).len(), 2);
    assert!(bevel_edges(0xff00_0001, 0xff00_0002, false).is_empty());
}

#[test]
fn routes_of_rounded_boxes() {
    let r = |v: f32| v.to_bits();
    assert_eq!(box_route(r(0.0), true, false, r(4.0), 4, true), BoxRoute::Square);
    assert_eq!(box_route(r(4.0), false, false, r(4.0), 4, true), BoxRoute::Square);
    assert_eq!(box_route(r(4.0), true, true, r(4.0), 4, true), BoxRoute::Nothing);
    assert_eq!(box_route(r(4.0), true, false, r(0.5), 1, true), BoxRoute::Square);
    assert_eq!(box_route(r(4.0), true, false, r(4.0), 4, true), BoxRoute::Discs);
    assert_eq!(box_route(r(40.0), true, false, r(40.0), 40, true), BoxRoute::Rows);
    assert_eq!(box_route(r(4.0), true, false, r(4.0), 4, false), BoxRoute::Rows);
}

#[test]
fn shadows_have_layers() {
    let layers = |level: u32| -> Vec<(u32, u32, u32)> {
        shadow_layers(level).iter().map(|l| (l.down, l.spread, l.alpha)).collect()
    };
    assert_eq!(layers(1), vec![(1, 0, 22), (2, 1, 10)]);
    assert_eq!(layers(2), vec![(2, 1, 24), (4, 2, 12), (6, 3, 6)]);
    assert_eq!(layers(3), vec![(2, 1, 28), (5, 3, 14), (9, 5, 7)]);
    assert_eq!(layers(9), layers(3));
}

#[test]
fn sprites_play_round_their_grid() {
    let c = sprite_cell(100, 100, 4, 6, 4);
    assert_eq!((c.cx, c.cy, c.cols, c.rows), (0, 0, 4, 2));
    let c = sprite_cell(103, 100, 4, 6, 4);
    assert_eq!((c.cx, c.cy), (0, 0));
    let c = sprite_cell(116, 100, 4, 6, 4);
    assert_eq!((c.cx, c.cy), (0, 1));
    let c = sprite_cell(124, 100, 4, 6, 4);
    assert_eq!((c.cx, c.cy), (0, 0));
    let c = sprite_cell(3, u64::MAX, 0, 3, 0);
    assert_eq!((c.cx, c.cy, c.cols, c.rows), (0, 1, 1, 3));
}

#[test]
fn fills_know_their_corners() {
    let g = |dir: u32| Fill::Grad { from: 1, via: None, to: 2, dir };
    let corners = |f: &Fill| -> Vec<u32> { (0..4).map(|i| corner_color(f, i)).collect() };
    assert_eq!(corners(&Fill::Flat(9)), vec![9, 9, 9, 9]);
    assert_eq!(corners(&g(0)), vec![1, 1, 2, 2]);
    assert_eq!(corners(&g(1)), vec![2, 2, 1, 1]);
    assert_eq!(corners(&g(2)), vec![2, 1, 1, 2]);
    assert_eq!(corners(&g(3)), vec![1, 2, 2, 1]);
    assert!(vertical_gradient(&g(0)) && vertical_gradient(&g(1)));
    assert!(!vertical_gradient(&g(2)) && !vertical_gradient(&Fill::Flat(0)));
    assert!(gradient_run_limit(&g(3)) < gradient_run_limit(&g(0)));
}

#[test]
fn gradients_of_three_colours_are_split() {
    let f = |pos: f32, dir: u32| Fill::Grad { from: 1, via: Some((2, pos.to_bits())), to: 3, dir };
    let sp = split_gradient(&f(0.25, 3)).unwrap();
    assert!(sp.along_x && sp.first_low);
    assert!(matches!(sp.first, Fill::Grad { from: 1, via: None, to: 2, dir: 3 }));
    assert!(matches!(sp.second, Fill::Grad { from: 2, via: None, to: 3, dir: 3 }));
    let sp = split_gradient(&f(0.5, 2)).unwrap();
    assert!(sp.along_x && !sp.first_low);
    let sp = split_gradient(&f(0.5, 1)).unwrap();
    assert!(!sp.along_x && !sp.first_low);
    assert!(split_gradient(&f(0.0, 0)).is_none());
    assert!(split_gradient(&f(1.0, 0)).is_none());
    assert!(split_gradient(&f(f32::NAN, 0)).is_none());
    assert!(split_gradient(&Fill::Flat(1)).is_none());
}

#[test]
fn rounded_boxes_are_tiled_by_their_pieces() {
    for (w, h, r) in [(20, 10, 4u32), (7, 9, 32), (1, 1, 1), (8, 8, 4)] {
        let p = disc_pieces(3, 5, 3 + w, 5 + h, r);
        assert_eq!(p.len(), 7);
        for y in 0..50 {
            for x in 0..60 {
                let n = p.iter().filter(|q| q.x0 <= x && x < q.x1 && q.y0 <= y && y < q.y1).count();
                let inside = x >= 6 && x < 6 + 2 * w && y >= 10 && y < 10 + 2 * h;
                assert_eq!(n, inside as usize);
            }
        }
    }
}

#[test]
fn bands_cover_every_row_once() {
    assert_eq!(span_bands(0, 6, 2, 4), vec![(2, 2), (0, 1), (1, 1), (4, 1), (5, 1)]);
    assert_eq!(span_bands(0, 2, 0, 0), vec![(0, 1), (1, 1)]);
    assert!(span_bands(3, 3, 3, 3).is_empty());
}

fn rects(d: &DrawList) -> Vec<(i16, i16, i32, i32, u32)> {
    d.words
        .chunks(4)
        .map(|r| {
            assert_eq!(r[0], 1);
            let ((x, y), (w, h)) = (xy(r[1]), wh(r[2]));
            (x, y, w, h, r[3])
        })
        .collect()
}

#[test]
fn rows_have_partial_edges() {
    // from 1.5 to 4.25 on row 7, clipped to 0..480
    let row = SpanRow {
        y: 7,
        h: 1,
        left_edge: 1,
        full_start: 2,
        full_end: 4,
        right_edge: 5,
        left_coverage: 128,
        right_coverage: 64,
        y_coverage: 255,
    };
    let colors = SpanColors { left: 0xff00_0001, inner: &[0xff00_0002], right: 0xff00_0003 };
    let mut d = DrawList::new();
    emit_fractional_span(&mut d, &row, 0, 480, 1_000_000, &colors);
    assert_eq!(
        rects(&d),
        vec![(1, 7, 1, 1, 0x8000_0001), (2, 7, 2, 1, 0xff00_0002), (4, 7, 1, 1, 0x4000_0003)]
    );
    // the clip takes both edges away
    let mut d = DrawList::new();
    emit_fractional_span(&mut d, &row, 2, 4, 1_000_000, &colors);
    assert_eq!(rects(&d), vec![(2, 7, 2, 1, 0xff00_0002)]);
    // a stretch inside one pixel is painted once
    let narrow = SpanRow { full_start: 2, full_end: 1, right_edge: 2, ..row };
    let mut d = DrawList::new();
    emit_fractional_span(&mut d, &narrow, 0, 480, 1_000_000, &colors);
    assert_eq!(rects(&d).len(), 1);
    let mut d = DrawList::new();
    emit_fractional_span(&mut d, &SpanRow { y_coverage: 0, ..row }, 0, 480, 1_000_000, &colors);
    assert!(d.words.is_empty());
}

#[test]
fn gradients_along_a_row_come_in_short_runs() {
    let mut d = DrawList::new();
    emit_rounded_span(&mut d, &[0xff00_0001, 0xff00_0002, 0x0000_0003], 4, 1, 2, 10, 21, 255);
    assert_eq!(rects(&d), vec![(10, 1, 4, 2, 0xff00_0001), (14, 1, 4, 2, 0xff00_0002)]);
    let mut d = DrawList::new();
    emit_rounded_span(&mut d, &[0xff00_0001], 4, 1, 2, 10, 10, 255);
    emit_rounded_span(&mut d, &[0xff00_0001], 4, 1, 0, 10, 20, 255);
    emit_rounded_span(&mut d, &[0xff00_0001], 4, 1, 2, 10, 20, 0);
    assert!(d.words.is_empty());
}

#[test]
fn arcs_are_painted_in_runs_of_one_coverage() {
    let mut d = DrawList::new();
    emit_arc_row(&mut d, 3, 10, &[0, 2, 4, 4, 4, 4, 1], Some((13, 15)), 0xff00_0000);
    assert_eq!(
        rects(&d),
        vec![(11, 3, 1, 1, 0x8000_0000), (12, 3, 1, 1, 0xff00_0000), (15, 3, 1, 1, 0xff00_0000), (16, 3, 1, 1, 0x4000_0000)]
    );
}

#[test]
fn frames_begin_with_a_clear() {
    let cmds = render(&[], &[], &[], false);
    assert!(matches!(cmds[0], GeCmd::Clear(0xff00_0000)));
    assert!(matches!(cmds[1], GeCmd::Begin));
    assert!(matches!(cmds[2], GeCmd::End));
    assert_eq!(cmds.len(), 3);
}

#[test]
fn triangles_gradients_and_surfaces_become_commands() {
    let mut d = DrawList::new();
    d.push_grad_rect(1, 2, 3, 4, 10, 20, 3);
    d.push_tri(((0, 0), (1, 0), (0, 1)), (7, 8, 9));
    d.push_tri(((5, 5), (6, 5), (5, 6)), (7, 8, 9));
    d.push_surface(1, (0, 0, 0, 0), 0, 0, 1, 1, false);
    d.push_tex_tri(0, (1, 2, 3, 4), (5, 6, 7, 8), (9, 10, 11, 12), 99);
    let slots = vec![TexSlot {
        gen: 0,
        tex: Some(Texture { data: vec![0; 4], w: 1, h: 1, psm: 3, palette: None, linear: false, revision: 0 }),
    }];
    let cmds = render_over(&slots, &[], &d.words, false);
    match &cmds[1] {
        GeCmd::Strip(v) => {
            let all: Vec<(u32, i16, i16)> = v.iter().map(|c| (c.color, c.x, c.y)).collect();
            assert_eq!(all, vec![(10, 1, 2), (20, 4, 2), (10, 1, 6), (20, 4, 6)]);
        }
        _ => panic!("a strip"),
    }
    match &cmds[2] {
        GeCmd::Triangles(v) => assert_eq!((v.len(), v[3].x, v[3].color), (6, 5, 7)),
        _ => panic!("triangles are batched"),
    }
    match &cmds[3] {
        GeCmd::TexTriangles(0, v) => {
            assert_eq!((v[0].x, v[0].y, v[0].u, v[0].v, v[0].color), (1, 2, 3, 4, 99));
            assert_eq!((v[2].x, v[2].y, v[2].u, v[2].v), (9, 10, 11, 12));
        }
        _ => panic!("a textured triangle"),
    }
    assert_eq!(cmds.len(), 5);
    // a list that is cut short ends there
    assert_eq!(render_over(&slots, &[], &d.words[..12], false).len(), 3);
}

#[test]
fn glyphs_come_from_a_texture_or_as_rectangles() {
    let mut d = DrawList::new();
    let clip = Bounds { x0: 0, y0: 0, x1: 480, y1: 272 };
    let glyphs = [GlyphPos { x: 10, y: 20, gid: 1 }, GlyphPos { x: 30, y: 20, gid: 9 }];
    d.push_glyph_run(0, 0xffff_ffff, &glyphs, 2, 2, 480, 272, clip);
    let fonts = [Some(atlas())];
    match &render_over(&[], &fonts, &d.words, false)[1] {
        GeCmd::GlyphSprites(0, v) => {
            // a glyph that the font lacks is left out
            assert_eq!(v.len(), 2);
            assert_eq!((v[0].x, v[0].y, v[1].x, v[1].y), (10, 20, 12, 22));
            assert_eq!((v[0].u, v[0].v, v[1].u, v[1].v), (2, 0, 4, 2));
        }
        _ => panic!("glyphs from the texture"),
    }
    match &render_over(&[], &fonts, &d.words, true)[1] {
        GeCmd::GlyphRects(v) => {
            assert_eq!(v.len(), 4);
            assert_eq!((v[0].color, v[0].x, v[0].y, v[1].x, v[1].y), (0x11ff_ffff, 10, 20, 12, 21));
            assert_eq!((v[2].color, v[2].x, v[2].y, v[3].x, v[3].y), (0x22ff_ffff, 10, 21, 12, 22));
        }
        _ => panic!("glyphs as rectangles"),
    }
    assert_eq!(render_over(&[], &[], &d.words, false).len(), 2);
}

#[test]
fn samplers_follow_the_texture() {
    let pixels = [0u8; 4];
    let view = TexView { pixels: &pixels, w: 8, h: 16, psm: 5, palette: Some(&pixels), linear: true };
    let s = apply_texture(&view);
    assert_eq!((s.psm, s.table, s.w, s.h, s.linear), (5, true, 8, 16, true));
    let s = apply_texture(&TexView { psm: 77, palette: None, linear: false, ..view });
    assert_eq!((s.psm, s.table, s.linear), (3, false, false));
    let s = apply_texture(&TexView { psm: 2, palette: None, ..view });
    assert_eq!((s.psm, s.table), (2, false));
    let s = apply_font_texture(&build_font_texture(&atlas(), 0).unwrap());
    assert_eq!((s.psm, s.table, s.linear), (2, false, false));
}

#[test]
fn glyph_cells_lie_in_their_texture() {
    for (count, w, h) in [(1u16, 1u32, 1u32), (95, 8, 16), (255, 20, 24), (300, 31, 9)] {
        let cells = count as usize * (w * h) as usize;
        let a = Atlas {
            slot: 1,
            glyph_count: count,
            cell_w: w,
            cell_h: h,
            raster_density: 1,
            bitmap: vec![255; cells],
            logical: vec![255; cells],
        };
        let (cols, tw, th) = font_grid(&a).unwrap();
        assert!(tw <= 512 && th <= 512);
        for gid in 0..count as u32 {
            assert!((gid % cols) * w + w <= tw && (gid / cols) * h + h <= th);
        }
    }
}

#[test]
fn polygons_are_clipped_at_a_line() {
    let keep = ClipStep::Keep;
    let cut = ClipStep::Cut;
    assert_eq!(clip_polygon(&[true, true, true]), vec![keep(0), keep(1), keep(2)]);
    assert!(clip_polygon(&[false, false]).is_empty());
    assert!(clip_polygon(&[]).is_empty());
    assert_eq!(
        clip_polygon(&[true, false, false, true]),
        vec![keep(0), cut(0, 1), cut(2, 3), keep(3)]
    );
    assert_eq!(clip_polygon(&[false, true, false]), vec![cut(0, 1), keep(1), cut(1, 2)]);
}

#[test]
fn surfaces_are_those_of_the_list_just_drawn() {
    let mut u = Ui::new(PropTable::new());
    let mut d = DrawList::new();
    d.push_surface(7, (1, 2, 3, 4), -5, 6, 30, 40, true);
    let words = d.words.clone();
    let frames = u.compositor_surface_frames(d);
    assert_eq!(frames.len(), 1);
    assert_eq!((frames[0].handle, frames[0].order), (7, 0));
    assert_eq!(u.current_draw_list().words, words);
    assert_eq!(u.compositor_surface_frames(DrawList::new()).len(), 0);
    assert!(u.current_draw_list().words.is_empty());
}

#[test]
fn a_broken_tail_is_left_out() {
    let mut d = DrawList::new();
    d.push_rect(1, 2, 3, 4, 0xff00_0001);
    d.push_scissor(10, 20, 30, 40);
    d.push_rect(5, 6, 7, 8, 0xff00_0002);
    let whole = render_over(&[], &[], &d.words, false);
    assert_eq!(whole.len(), 5);
    assert!(!whole.iter().any(|c| matches!(c, GeCmd::Clear(_))));
    // an unknown operation before good ones, and a rectangle that is cut short
    for tail in [vec![99, 1, 0, 0, 1], vec![1, 7, 7]] {
        let mut words = d.words.clone();
        words.extend_from_slice(&tail);
        let cmds = render_over(&[], &[], &words, false);
        assert_eq!(cmds.len(), whole.len());
        match (&cmds[3], &whole[3]) {
            (GeCmd::Sprites(a), GeCmd::Sprites(b)) => {
                assert_eq!(a.len(), b.len());
                assert_eq!((a[1].x, a[1].y, a[1].color), (b[1].x, b[1].y, b[1].color));
            }
            _ => panic!("rectangles"),
        }
        assert!(matches!(cmds[4], GeCmd::End));
    }
}

#[test]
fn pieces_reach_to_the_last_half_pixel() {
    let (low, high) = (i32::MIN / 2, i32::MAX / 2);
    let p = disc_pieces(low, low, high, high, u32::MAX);
    assert_eq!((p[0].x0, p[0].x1, p[3].x1), (i32::MIN, -1, i32::MAX - 1));
    let q = disc_pieces(high - 4, high - 4, high, high, 1);
    assert_eq!((q[3].x0, q[3].y1), (i32::MAX - 3, i32::MAX - 1));
}
