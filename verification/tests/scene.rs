use pocketjs::fbits::{clamp, finite, nan, negative, order_key, positive, zero};
use pocketjs::order::stable_order;
use pocketjs::playback::TrackStep;
use pocketjs::style::{
    AnimationBlock, PropTable, StyleRecord, StyleTable, Timeline, TimelineTrack, Transition, KIND_COLOR, KIND_F32,
};
use pocketjs::ui::Ui;

const VIEW: u8 = 0;
const TEXT: u8 = 1;
const IMAGE: u8 = 2;
const SURFACE: u8 = 3;

const WIDTH: u8 = 0;
const HEIGHT: u8 = 1;
const OPACITY: u8 = 10;
const BG: u8 = 11;
const LEFT: u8 = 12;

fn props() -> PropTable {
    let mut p = PropTable::new();
    p.define(WIDTH, KIND_F32, 0, true);
    p.define(HEIGHT, KIND_F32, 1, true);
    p.define(2, 2, 0xff, true);
    p.define(3, 2, 0xff, false);
    p.define(OPACITY, KIND_F32, 2, false);
    p.define(BG, KIND_COLOR, 3, false);
    p.define(LEFT, KIND_F32, 40, true);
    p.last_easing = 5;
    p
}

fn ui() -> Ui {
    Ui::new(props())
}

fn bits(v: f32) -> u32 {
    v.to_bits()
}

fn record(base: Vec<(u8, u32)>) -> StyleRecord {
    StyleRecord {
        base,
        focus: vec![],
        active: vec![],
        transition: None,
        animation: None,
    }
}

fn table(records: Vec<StyleRecord>, anims: Vec<Timeline>) -> StyleTable {
    StyleTable {
        records,
        anims,
        defaults: vec![0; 256],
    }
}

fn value(u: &Ui, id: i32, prop: u8) -> u32 {
    u.resolved_style(id).unwrap()[prop as usize]
}

fn idle(u: &Ui) -> Vec<TrackStep> {
    vec![TrackStep { value: 0, done: false }; u.scene.anims.tracks.len()]
}

fn steps(u: &Ui, value: u32, done: bool) -> Vec<TrackStep> {
    vec![TrackStep { value, done }; u.scene.anims.tracks.len()]
}

#[test]
fn nodes_have_generation_tagged_ids() {
    let mut u = ui();
    let a = u.create_node(VIEW);
    let b = u.create_node(TEXT);
    assert_eq!((a, b), (2, 3));
    assert_eq!(u.create_node(4), 0);
    u.destroy_node(a);
    assert!(u.resolved_style(a).is_none());
    let c = u.create_node(VIEW);
    assert_eq!(c, a + 0x1_0000);
    assert!(u.resolved_style(a).is_none());
    assert!(u.resolved_style(c).is_some());
    u.destroy_node(1);
    assert!(u.resolved_style(1).is_some());
}

#[test]
fn inserting_moves() {
    let mut u = ui();
    let p = u.create_node(VIEW);
    let (a, b, c) = (u.create_node(VIEW), u.create_node(VIEW), u.create_node(VIEW));
    u.insert_before(1, p, 0);
    u.insert_before(p, a, 0);
    u.insert_before(p, b, 0);
    u.insert_before(p, c, a);
    let kids = |u: &Ui, id: i32| u.scene.tree.slots[id as usize].children.clone();
    assert_eq!(kids(&u, p), vec![c as u32, a as u32, b as u32]);
    // moving within, and to another parent
    u.insert_before(p, c, 0);
    assert_eq!(kids(&u, p), vec![a as u32, b as u32, c as u32]);
    u.insert_before(1, b, p);
    assert_eq!(kids(&u, p), vec![a as u32, c as u32]);
    assert_eq!(kids(&u, 1), vec![b as u32, p as u32]);
    // a node cannot go under itself
    u.insert_before(a, p, 0);
    assert_eq!(kids(&u, 1), vec![b as u32, p as u32]);
    u.remove_child(1, a);
    assert_eq!(kids(&u, p), vec![a as u32, c as u32]);
    u.remove_child(p, a);
    assert_eq!(kids(&u, p), vec![c as u32]);
    assert!(u.resolved_style(a).is_some());
}

#[test]
fn destroying_takes_the_subtree_the_focus_and_the_animations() {
    let mut u = ui();
    let (p, c, other) = (u.create_node(VIEW), u.create_node(VIEW), u.create_node(VIEW));
    u.insert_before(1, p, 0);
    u.insert_before(p, c, 0);
    u.set_focus(c);
    let x = u.animate(c, OPACITY, bits(1.0), 100, 0, 0);
    let y = u.animate(other, OPACITY, bits(1.0), 100, 0, 0);
    assert!(x > 0 && y > 0);
    u.destroy_node(p);
    assert!(u.resolved_style(c).is_none());
    assert_eq!(u.focused(), 0);
    assert!(!u.scene.anims.tracks[x as usize].alive);
    assert!(u.scene.anims.tracks[y as usize].alive);
    u.set_focus(other);
    let q = u.create_node(VIEW);
    u.destroy_node(q);
    assert_eq!(u.focused(), other);
}

#[test]
fn the_auxiliary_root_is_protected() {
    let mut u = ui();
    assert_eq!(u.auxiliary_surface_root(), 0);
    assert_eq!(u.auxiliary_viewport(), None);
    let r = u.create_auxiliary_surface(bits(320.0), bits(0.0));
    assert!(r > 0);
    assert_eq!(u.auxiliary_viewport(), Some((bits(320.0), bits(1.0))));
    assert_eq!(value(&u, r, WIDTH), bits(320.0));
    assert_eq!(u.create_auxiliary_surface(bits(99999.0), bits(200.0)), r);
    assert_eq!(u.auxiliary_viewport(), Some((bits(32000.0), bits(200.0))));
    assert_eq!(value(&u, r, HEIGHT), bits(200.0));
    u.destroy_node(r);
    u.insert_before(1, r, 0);
    assert!(u.resolved_style(r).is_some());
    assert!(u.scene.tree.slots[1].children.is_empty());
    let c = u.create_node(VIEW);
    u.insert_before(r, c, 0);
    assert_eq!(u.scene.tree.slots[r as usize].children, vec![c as u32]);
}

#[test]
fn set_values_win() {
    let mut u = ui();
    let n = u.create_node(VIEW);
    u.layout_done();
    u.set_prop(n, OPACITY, bits(0.5));
    assert_eq!(value(&u, n, OPACITY), bits(0.5));
    assert!(!u.needs_layout());
    u.set_prop(n, WIDTH, bits(10.0));
    assert!(u.needs_layout());
    u.set_prop(n, 200, 7);
    assert_eq!(value(&u, n, 200), 0);
    let a = u.animate(n, OPACITY, bits(1.0), 100, 0, 0);
    assert!(a > 0);
    u.set_prop(n, OPACITY, bits(0.25));
    assert_eq!(value(&u, n, OPACITY), bits(0.25));
    u.tick(&steps(&u, bits(0.9), false));
    assert_eq!(value(&u, n, OPACITY), bits(0.25));
}

#[test]
fn styles_have_variants() {
    let mut u = ui();
    let mut r = record(vec![(BG, 1), (OPACITY, bits(1.0))]);
    r.focus = vec![(BG, 2)];
    r.active = vec![(BG, 3)];
    assert!(u.load_styles(Some(table(vec![r], vec![]))));
    assert!(!u.load_styles(None));
    let n = u.create_node(VIEW);
    u.set_style(n, 0);
    assert_eq!(value(&u, n, BG), 1);
    u.set_focus(n);
    assert_eq!(value(&u, n, BG), 2);
    u.set_active(n, true);
    assert_eq!(value(&u, n, BG), 3);
    u.set_focus(0);
    assert_eq!(value(&u, n, BG), 3);
    u.set_active(n, false);
    assert_eq!(value(&u, n, BG), 1);
    u.set_prop(n, BG, 9);
    u.set_focus(n);
    assert_eq!(value(&u, n, BG), 9);
    u.set_focus(12345);
    assert_eq!(u.focused(), n);
    u.set_style(n, -7);
    assert_eq!(value(&u, n, OPACITY), 0);
}

#[test]
fn transitions_start_at_the_old_look() {
    let mut u = ui();
    let tr = Transition {
        mask: 0b1111,
        dur_ms: 100,
        easing: 2,
        delay_ms: 5,
    };
    let mut a = record(vec![(OPACITY, bits(0.0)), (WIDTH, bits(10.0)), (BG, 1)]);
    let mut b = record(vec![(OPACITY, bits(1.0)), (WIDTH, bits(-1.0)), (BG, 2), (LEFT, bits(3.0))]);
    a.transition = Some(tr);
    b.transition = Some(tr);
    u.load_styles(Some(table(vec![a, b], vec![])));
    let n = u.create_node(VIEW);
    u.set_style(n, 0);
    assert_eq!(u.scene.anims.tracks.len(), 1);
    u.set_style(n, 1);
    // opacity and colour move; a size below zero and an unmasked value jump
    assert_eq!(u.scene.anims.tracks.iter().filter(|t| t.alive).count(), 2);
    assert_eq!(value(&u, n, OPACITY), bits(0.0));
    assert_eq!(value(&u, n, BG), 1);
    assert_eq!(value(&u, n, WIDTH), bits(-1.0));
    assert_eq!(value(&u, n, LEFT), bits(3.0));
    let t = u.scene.anims.tracks[1];
    assert_eq!((t.node, t.prop, t.from, t.to), (n, OPACITY, bits(0.0), bits(1.0)));
    assert_eq!((t.dur_ms, t.easing, t.delay_ms, t.hz, t.explicit), (100, 2, 5, 60, false));
    u.tick(&steps(&u, bits(0.5), false));
    assert_eq!(value(&u, n, OPACITY), bits(0.5));
    u.tick(&steps(&u, 0, true));
    assert_eq!(value(&u, n, OPACITY), bits(1.0));
    assert_eq!(value(&u, n, BG), 2);
    assert_eq!(u.scene.anims.tracks.iter().filter(|t| t.alive).count(), 0);
}

#[test]
fn pressing_without_a_variant_leaves_transitions_alone() {
    let mut u = ui();
    let tr = Transition { mask: 4, dur_ms: 100, easing: 0, delay_ms: 0 };
    let mut a = record(vec![(OPACITY, bits(0.0))]);
    let mut b = record(vec![(OPACITY, bits(1.0))]);
    a.transition = Some(tr);
    b.transition = Some(tr);
    u.load_styles(Some(table(vec![a, b], vec![])));
    let n = u.create_node(VIEW);
    u.set_style(n, 0);
    u.set_style(n, 1);
    u.tick(&steps(&u, bits(0.5), false));
    u.layout_done();
    u.set_active(n, true);
    assert_eq!(value(&u, n, OPACITY), bits(0.5));
    assert!(u.scene.anims.tracks[1].alive);
    assert!(!u.needs_layout());
}

#[test]
fn scripts_animate() {
    let mut u = ui();
    let n = u.create_node(VIEW);
    u.set_prop(n, OPACITY, bits(0.25));
    assert_eq!(u.animate(n, 3, 1, 100, 0, 0), -1);
    assert_eq!(u.animate(n, OPACITY, bits(1.0), 100, 6, 0), -1);
    assert_eq!(u.animate(999, OPACITY, bits(1.0), 100, 0, 0), -1);
    assert_eq!(u.animate(n, WIDTH, bits(-1.0), 100, 0, 0), -1);
    assert_eq!(u.animate(n, LEFT, bits(f32::NAN), 100, 0, 0), -1);
    assert!(nan(value(&u, n, LEFT)));
    let a = u.animate(n, OPACITY, bits(1.0), 100, 5, 7);
    assert!(a > 0);
    assert_eq!(value(&u, n, OPACITY), bits(0.25));
    u.tick(&steps(&u, bits(0.5), false));
    assert_eq!(value(&u, n, OPACITY), bits(0.5));
    u.cancel_anim(a);
    assert_eq!(value(&u, n, OPACITY), bits(0.5));
    u.cancel_anim(a);
    u.tick(&steps(&u, bits(0.75), false));
    assert_eq!(value(&u, n, OPACITY), bits(0.5));
    let b = u.animate(n, OPACITY, bits(1.0), 100, 0, 0);
    assert_ne!(a, b);
    u.tick(&steps(&u, 0, true));
    assert_eq!(value(&u, n, OPACITY), bits(1.0));
    u.cancel_anim(b);
    assert_eq!(value(&u, n, OPACITY), bits(1.0));
}

fn line(delay: u16, period: u16, iterations: u16, prop: u8, samples: Vec<u32>) -> Timeline {
    Timeline {
        delay_frames: delay,
        period_frames: period,
        iterations,
        fill_backwards: false,
        fill_forwards: false,
        tracks: vec![TimelineTrack { prop, samples }],
    }
}

#[test]
fn timelines_play_and_the_last_writer_wins() {
    let mut u = ui();
    let mut r = record(vec![(OPACITY, 100), (LEFT, 200)]);
    r.animation = Some(AnimationBlock { anims: vec![0, 7, 1], loop_frames: 0 });
    let anims = vec![
        line(0, 2, 0, OPACITY, vec![1, 2, 3]),
        line(1, 1, 2, OPACITY, vec![10, 11]),
    ];
    u.load_styles(Some(table(vec![r], anims)));
    let n = u.create_node(VIEW);
    u.set_style(n, 0);
    assert_eq!(u.scene.timelines.len(), 2);
    let mut seen = Vec::new();
    for _ in 0..5 {
        let s = idle(&u);
        u.tick(&s);
        seen.push(value(&u, n, OPACITY));
    }
    assert_eq!(seen, vec![1, 10, 10, 2, 1]);
    assert_eq!(value(&u, n, LEFT), 200);
    u.set_style(n, -1);
    let s = idle(&u);
    u.tick(&s);
    assert!(u.scene.timelines.is_empty());
    assert_eq!(value(&u, n, OPACITY), 0);
}

#[test]
fn timelines_fill_and_loop() {
    let mut u = ui();
    let mut r = record(vec![]);
    r.animation = Some(AnimationBlock { anims: vec![0], loop_frames: 5 });
    let mut tl = line(1, 2, 1, LEFT, vec![5, 6, 7]);
    tl.fill_backwards = true;
    tl.fill_forwards = true;
    u.load_styles(Some(table(vec![r], vec![tl])));
    let n = u.create_node(VIEW);
    u.set_style(n, 0);
    let mut seen = Vec::new();
    let mut moved = Vec::new();
    for _ in 0..7 {
        u.layout_done();
        let s = idle(&u);
        moved.push(u.tick(&s));
        seen.push(value(&u, n, LEFT));
    }
    assert_eq!(seen, vec![5, 5, 6, 7, 7, 5, 5]);
    // boxes move only when the value changes
    assert_eq!(moved, vec![true, false, true, true, false, true, false]);
    u.destroy_node(n);
    let s = idle(&u);
    u.tick(&s);
    assert!(u.scene.timelines.is_empty());
}

#[test]
fn text_changes_mark_layout() {
    let mut u = ui();
    let root = u.create_node(TEXT);
    let part = u.create_node(TEXT);
    let view = u.create_node(VIEW);
    u.insert_before(1, root, 0);
    u.insert_before(root, part, 0);
    u.insert_before(root, view, 0);
    u.layout_done();
    u.set_text(part, "");
    assert!(!u.needs_layout());
    u.set_text(part, "abc");
    assert!(u.scene.layouts.main.dirty);
    assert_eq!(u.scene.run_text(root as u32), "abc");
    u.set_text(root, "x ");
    assert_eq!(u.scene.run_text(root as u32), "x abc");
    u.layout_done();
    // the size is not fixed while width or height is NaN
    u.set_prop(root, WIDTH, bits(f32::NAN));
    u.layout_done();
    u.replace_text(part, "abcd");
    assert!(!u.scene.layouts.main.dirty);
    assert_eq!(u.scene.layouts.main.restyle, vec![root as u32]);
    u.set_prop(root, WIDTH, bits(10.0));
    u.set_prop(root, HEIGHT, bits(10.0));
    u.layout_done();
    u.set_text(part, "abcde");
    assert!(!u.needs_layout());
    u.set_text(part, "");
    assert!(!u.needs_layout());
    u.set_text(root, "");
    assert!(u.scene.layouts.main.dirty);
    u.set_text(view, "nothing");
    assert_eq!(u.scene.run_text(root as u32), "");
}

#[test]
fn images_sprites_and_surfaces_are_bound() {
    let mut u = ui();
    let img = u.create_node(IMAGE);
    let view = u.create_node(VIEW);
    let t = u.upload_texture(&[0; 4], 1, 1, 3);
    let node = |u: &Ui, id: i32| -> (i32, u16) {
        let n = &u.scene.nodes[id as usize];
        (n.tex, n.sprite.frames)
    };
    u.set_image(img, t);
    u.set_image(view, t);
    assert_eq!(node(&u, img), (t, 0));
    assert_eq!(node(&u, view), (-1, 0));
    u.set_image(img, 77);
    assert_eq!(node(&u, img), (t, 0));
    let s = idle(&u);
    u.tick(&s);
    u.set_sprite(img, t, 70000, 0, 0);
    let sp = u.scene.nodes[img as usize].sprite;
    assert_eq!((sp.frames, sp.cols, sp.step, sp.start), (65535, 1, 1, 1));
    u.set_image(img, t);
    assert_eq!(node(&u, img), (t, 0));
    u.set_sprite(img, t, 3, 2, 1);
    u.set_sprite(img, t, 0, 2, 1);
    assert_eq!(node(&u, img), (-1, 0));
    u.set_sprite(img, t, 3, 2, 1);
    u.set_sprite(img, 55, 3, 2, 1);
    assert_eq!(node(&u, img), (t, 3));
    u.set_image(img, -9);
    assert_eq!(node(&u, img), (-1, 0));
    let (a, b) = (u.create_node(SURFACE), u.create_node(SURFACE));
    u.set_compositor_surface(b, 5, true);
    u.set_compositor_surface(a, 4, false);
    u.set_compositor_surface(view, 3, false);
    assert_eq!(u.compositor_surface_bindings(), vec![(4, false), (5, true)]);
    u.set_compositor_surface(a, -20, false);
    assert_eq!(u.compositor_surface_bindings(), vec![(5, true)]);
    assert_eq!(u.scene.nodes[a as usize].surface, -1);
}

#[test]
fn rates_are_fixed_by_the_first_frame() {
    let mut u = ui();
    assert_eq!(u.tick_rate(), 60);
    assert!(!u.set_tick_rate(0));
    assert!(!u.set_tick_rate(241));
    assert!(u.set_tick_rate(240));
    assert_eq!(u.tick_rate(), 240);
    u.debug_pause(true);
    let s = idle(&u);
    u.tick(&s);
    assert_eq!(u.frame, 0);
    assert!(!u.set_tick_rate(30));
    assert_eq!(u.tick_rate(), 240);
}

#[test]
fn a_paused_world_steps_one_frame_at_a_time() {
    let mut u = ui();
    let s = idle(&u);
    u.debug_step();
    assert!(!u.step_pending);
    u.tick(&s);
    assert_eq!(u.frame, 1);
    u.debug_pause(true);
    assert!(u.debug_paused());
    u.tick(&s);
    assert_eq!(u.frame, 1);
    u.debug_step();
    u.tick(&s);
    u.tick(&s);
    assert_eq!(u.frame, 2);
    u.debug_step();
    u.debug_pause(false);
    u.debug_pause(true);
    u.tick(&s);
    assert_eq!(u.frame, 2);
    u.debug_pause(false);
    u.tick(&s);
    assert_eq!(u.frame, 3);
}

#[test]
fn viewports_are_clamped() {
    let mut u = ui();
    assert_eq!(u.viewport(), (bits(480.0), bits(272.0)));
    assert_eq!(value(&u, 1, WIDTH), bits(480.0));
    u.layout_done();
    u.set_viewport(bits(480.0), bits(272.0));
    assert!(!u.needs_layout());
    u.set_viewport(bits(0.0), bits(1e9));
    assert_eq!(u.viewport(), (bits(1.0), bits(32000.0)));
    assert_eq!(value(&u, 1, HEIGHT), bits(32000.0));
    assert!(u.needs_layout());
}

#[test]
fn the_inspector_packs_its_rectangle() {
    let mut u = ui();
    assert_eq!((u.debug_rect_xy(), u.debug_rect_wh()), (-1, -1));
    u.debug_inspect(5);
    let p = pocketjs::commands::Painted {
        target: Some(pocketjs::ui::IntRect { x: 3, y: -2, w: 300, h: 7 }),
        drawn: Some((1, 2, 3, 4)),
        text_stale: false,
    };
    assert!(!u.finish_draw(p, false));
    assert_eq!(u.debug_rect_xy(), 3 | (-2 << 16));
    assert_eq!(u.debug_rect_wh(), 300 | (7 << 16));
    u.debug_inspect(6);
    assert_eq!(u.debug_rect_xy(), -1);
    assert_eq!(u.inspector.drawn, Some((1, 2, 3, 4)));
    u.debug_inspect(0);
    assert_eq!(u.inspector.drawn, None);
    assert!(!u.finish_draw(p, false));
    assert_eq!(u.debug_rect_xy(), -1);
}

#[test]
fn stale_text_is_painted_again_once() {
    let mut u = ui();
    u.layout_done();
    let p = pocketjs::commands::Painted { target: None, drawn: None, text_stale: true };
    assert!(u.finish_draw(p, false));
    assert!(u.needs_layout());
    assert!(!u.finish_draw(p, true));
    assert!(!u.finish_draw_auxiliary(p, false));
    u.create_auxiliary_surface(bits(10.0), bits(10.0));
    u.layout_done();
    assert!(u.finish_draw_auxiliary(p, false));
    assert!(!u.needs_layout());
    assert!(!u.finish_draw_auxiliary(p, true));
}

#[test]
fn the_pointer_needs_its_texture() {
    let mut u = ui();
    let t = u.upload_texture(&[0; 8], 2, 1, 3);
    assert!(u.cursor_sprite().is_none());
    u.set_cursor(t, bits(1.0), bits(2.0), bits(16.0), bits(-3.0));
    u.set_cursor_pos(bits(-99999.0), bits(5.0));
    let c = u.cursor_sprite().unwrap();
    assert_eq!(c.tex, 0);
    assert_eq!(c.pos, (bits(-32000.0), bits(5.0)));
    assert!(matches!(c.w, pocketjs::commands::CursorSize::Given(w) if w == bits(16.0)));
    assert!(matches!(c.h, pocketjs::commands::CursorSize::Texels(1)));
    u.free_texture(t);
    assert!(u.cursor_sprite().is_none());
    u.set_cursor(t, 0, 0, 0, 0);
    assert_eq!(u.cursor.tex, -1);
}

#[test]
fn bit_patterns_answer_questions() {
    for v in [0.0f32, -0.0, 1.0, -1.0, 1e-40, -1e-40, f32::INFINITY, f32::NEG_INFINITY, f32::NAN, 32000.0] {
        let b = v.to_bits();
        assert_eq!(nan(b), v.is_nan());
        assert_eq!(finite(b), v.is_finite());
        assert_eq!(zero(b), v == 0.0);
        assert_eq!(positive(b), v > 0.0);
        assert_eq!(negative(b), v < 0.0);
        for w in [0.0f32, -1.0, 5.0, -1e-40, f32::INFINITY, f32::NAN] {
            assert_eq!(order_key(b) < order_key(w.to_bits()), v.total_cmp(&w).is_lt());
        }
        if !v.is_nan() {
            assert_eq!(f32::from_bits(clamp(b, bits(1.0), bits(32000.0))), v.clamp(1.0, 32000.0));
        }
    }
    assert!(nan(clamp(bits(f32::NAN), bits(1.0), bits(2.0))));
}

#[test]
fn equal_keys_keep_their_order() {
    assert_eq!(stable_order(&[3, 1, 3, 1, 2]), vec![1, 3, 4, 0, 2]);
    assert_eq!(stable_order(&[0, 0, 0]), vec![0, 1, 2]);
    assert!(stable_order(&[]).is_empty());
}

#[test]
fn auxiliary_surfaces_have_their_own_draw_list() {
    let mut u = ui();
    assert!(u.current_auxiliary_draw_list().is_none());
    u.create_auxiliary_surface(bits(10.0), bits(10.0));
    assert!(u.current_auxiliary_draw_list().is_some());
    assert!(u.current_draw_list().words.is_empty());
}

#[test]
fn animations_that_are_over_stay_where_they_ended() {
    let mut u = ui();
    let n = u.create_node(VIEW);
    u.insert_before(1, n, 0);
    u.load_styles(Some(table(vec![record(vec![(OPACITY, bits(0.25))])], vec![])));
    u.set_style(n, 0);
    let a = u.animate(n, OPACITY, bits(1.0), 100, 0, 0);
    u.tick(&steps(&u, 0, true));
    assert_eq!(value(&u, n, OPACITY), bits(1.0));
    for _ in 0..3 {
        u.tick(&steps(&u, bits(0.5), false));
        assert_eq!(value(&u, n, OPACITY), bits(1.0));
        u.cancel_anim(a);
        assert_eq!(value(&u, n, OPACITY), bits(1.0));
    }
    // an animation that was stopped half way
    let b = u.animate(n, OPACITY, 0, 100, 0, 0);
    u.tick(&steps(&u, bits(0.75), false));
    u.cancel_anim(b);
    for _ in 0..3 {
        u.tick(&steps(&u, bits(0.5), true));
        assert_eq!(value(&u, n, OPACITY), bits(0.75));
    }
    // ids that name nothing
    u.cancel_anim(b);
    u.cancel_anim(12345);
    assert_eq!(value(&u, n, OPACITY), bits(0.75));
}

#[test]
fn transitions_that_are_over_leave_the_style() {
    let mut u = ui();
    let n = u.create_node(VIEW);
    u.insert_before(1, n, 0);
    let mut slow = record(vec![(OPACITY, bits(1.0))]);
    slow.transition = Some(Transition { mask: 4, dur_ms: 100, easing: 0, delay_ms: 0 });
    u.load_styles(Some(table(vec![record(vec![(OPACITY, 0)]), slow], vec![])));
    u.set_style(n, 0);
    u.set_style(n, 1);
    assert_eq!(value(&u, n, OPACITY), 0);
    u.tick(&steps(&u, bits(0.5), false));
    assert_eq!(value(&u, n, OPACITY), bits(0.5));
    u.tick(&steps(&u, bits(0.5), true));
    for _ in 0..3 {
        assert_eq!(value(&u, n, OPACITY), bits(1.0));
        u.tick(&steps(&u, bits(0.5), false));
    }
}

#[test]
fn a_new_interface_is_a_root_and_nothing_else() {
    let u = ui();
    assert_eq!(u.scene.nodes.len(), 2);
    assert_eq!(value(&u, 1, WIDTH), bits(480.0));
    assert_eq!(value(&u, 1, HEIGHT), bits(272.0));
    let p = props();
    assert_eq!(value(&u, 1, p.flex_dir), p.flex_col);
    assert_eq!((u.cursor.tex, u.cursor.hot, u.cursor.size, u.cursor.pos), (-1, (0, 0), (0, 0), (0, 0)));
    assert!(u.inspector.drawn.is_none() && u.inspector.aux_drawn.is_none());
    assert!(u.current_draw_list().words.is_empty());
    assert!(u.aux_draw_list.words.is_empty());
}

#[test]
fn timelines_without_a_value_let_targets_stay() {
    let mut u = ui();
    let mut r = record(vec![(OPACITY, 100)]);
    r.animation = Some(AnimationBlock { anims: vec![0], loop_frames: 0 });
    u.load_styles(Some(table(vec![r], vec![line(0, 2, 1, OPACITY, vec![1, 2, 3])])));
    let n = u.create_node(VIEW);
    u.set_style(n, 0);
    // the timeline covers the target while it has a value, and no longer
    u.animate(n, OPACITY, 500, 100, 0, 0);
    u.tick(&steps(&u, 0, true));
    assert_eq!(value(&u, n, OPACITY), 1);
    u.tick(&idle(&u));
    assert_eq!(value(&u, n, OPACITY), 2);
    for _ in 0..3 {
        u.tick(&idle(&u));
        assert_eq!(value(&u, n, OPACITY), 500);
    }
    assert_eq!(u.scene.timelines.len(), 1);
    // a track that ends after the timeline
    let a = u.animate(n, OPACITY, 600, 100, 0, 0);
    u.tick(&steps(&u, 0, true));
    for _ in 0..3 {
        assert_eq!(value(&u, n, OPACITY), 600);
        u.tick(&idle(&u));
        u.cancel_anim(a);
    }
    // one that is stopped after the timeline
    let b = u.animate(n, OPACITY, 700, 100, 0, 0);
    let before = value(&u, n, OPACITY);
    u.cancel_anim(b);
    for _ in 0..3 {
        assert_eq!(value(&u, n, OPACITY), before);
        u.tick(&idle(&u));
    }
}

#[test]
fn a_timeline_that_never_begins_lets_targets_stay() {
    let mut u = ui();
    let mut r = record(vec![(OPACITY, 100)]);
    r.animation = Some(AnimationBlock { anims: vec![0], loop_frames: 3 });
    u.load_styles(Some(table(vec![r], vec![line(3, 2, 1, OPACITY, vec![1, 2, 3])])));
    let n = u.create_node(VIEW);
    u.set_style(n, 0);
    u.animate(n, OPACITY, 500, 100, 0, 0);
    u.tick(&steps(&u, 0, true));
    for _ in 0..7 {
        assert_eq!(value(&u, n, OPACITY), 500);
        u.tick(&idle(&u));
    }
}
