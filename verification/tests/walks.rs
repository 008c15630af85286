use pocketjs::bridge::{
    arg_at, batch_records, decode, op_entry, prop_bits, register, register_audio, view_range, Arg, Command, Op,
    PropRecord,
};
use pocketjs::paint::BoxStyle;
use pocketjs::plan::{text_route, PaintFacts, PaintStep, SpaceFacts, SpaceItem, TextRoute};
use pocketjs::style::{PropTable, KIND_COLOR, KIND_F32};
use pocketjs::touch::HitTable;
use pocketjs::ui::Ui;
use pocketjs::walk::HitFacts;

const Z: u8 = 3;

fn ui() -> Ui {
    let mut p = PropTable::new();
    p.define(Z, 2, 0xff, false);
    p.define(9, KIND_F32, 1, false);
    p.define(8, KIND_COLOR, 2, false);
    Ui::new(p)
}

fn plain() -> BoxStyle {
    BoxStyle {
        bg: 0,
        border: 0,
        grad_dir: 0xffff_ffff,
        radius: 0,
        border_width: 0,
        shadow: 0,
        arc_width: 0,
        arc_sweep: 0,
        bevel_outer_light: 0,
        bevel_outer_dark: 0,
        bevel_inner_light: 0,
        bevel_inner_dark: 0,
        bevel_width: 0,
    }
}

fn seen() -> HitFacts {
    HitFacts {
        seen: true,
        inside: true,
        passes: false,
        bg: 0xff00_0000,
        grad_dir: 0xffff_ffff,
        in_band: false,
        cut: false,
        perspective: false,
    }
}

fn shown() -> PaintFacts {
    PaintFacts {
        shown: true,
        visible: true,
        style: BoxStyle { bg: 0xff00_0000, ..plain() },
        clips: false,
        clip_empty: false,
        perspective: false,
    }
}

// root 1 holds a, b and c; b holds d
fn tree(u: &mut Ui) -> (i32, i32, i32, i32) {
    let (a, b, c, d) = (u.create_node(0), u.create_node(0), u.create_node(0), u.create_node(0));
    u.insert_before(1, a, 0);
    u.insert_before(1, b, 0);
    u.insert_before(1, c, 0);
    u.insert_before(b, d, 0);
    (a, b, c, d)
}

#[test]
fn children_are_painted_by_z_then_in_document_order() {
    let mut u = ui();
    let (a, b, c, _d) = tree(&mut u);
    let order = |u: &Ui| u.scene.children_in_paint_order(1);
    assert_eq!(order(&u), vec![a as u32, b as u32, c as u32]);
    u.set_prop(a, Z, 2);
    u.set_prop(c, Z, (-1i32) as u32);
    assert_eq!(order(&u), vec![c as u32, b as u32, a as u32]);
    u.set_prop(b, Z, 2);
    assert_eq!(order(&u), vec![c as u32, a as u32, b as u32]);
}

#[test]
fn the_last_painted_claimant_is_hit() {
    let mut u = ui();
    let (a, b, c, d) = tree(&mut u);
    let mut f = vec![seen(); u.scene.nodes.len()];
    assert_eq!(u.hit_test(&f), c);
    f[c as usize].inside = false;
    assert_eq!(u.hit_test(&f), d);
    f[d as usize].bg = 0;
    assert_eq!(u.hit_test(&f), b);
    assert_eq!(u.hit_test_bounds(&f), d);
    f[d as usize].in_band = true;
    assert_eq!(u.hit_test(&f), d);
    f[b as usize].cut = true;
    assert_eq!(u.hit_test(&f), b);
    f[b as usize].cut = false;
    f[b as usize].perspective = true;
    f[b as usize].bg = 0;
    assert_eq!(u.hit_test(&f), b);
    f[b as usize].passes = true;
    assert_eq!(u.hit_test(&f), a);
    f[a as usize].seen = false;
    assert_eq!(u.hit_test(&f), 1);
    f[1].seen = false;
    assert_eq!(u.hit_test(&f), 0);
    u.set_prop(a, Z, 5);
    let f = vec![seen(); u.scene.nodes.len()];
    assert_eq!(u.hit_test(&f), a);
    assert_eq!(u.hit_test_auxiliary(&f), 0);
    assert_eq!(u.hit_test_bounds_auxiliary(&f), 0);
}

#[test]
fn text_and_images_claim_their_box() {
    let mut u = ui();
    let (t, i) = (u.create_node(1), u.create_node(2));
    let inner = u.create_node(1);
    u.insert_before(1, t, 0);
    u.insert_before(t, inner, 0);
    u.insert_before(1, i, 0);
    let mut f = vec![HitFacts { bg: 0, ..seen() }; u.scene.nodes.len()];
    // the run claims for the text nodes in it
    assert_eq!(u.hit_test(&f), t);
    let tex = u.upload_texture(&[0; 4], 1, 1, 3);
    u.set_image(i, tex);
    assert_eq!(u.hit_test(&f), i);
    f[i as usize].inside = false;
    assert_eq!(u.hit_test(&f), t);
}

#[test]
fn plans_follow_the_tree() {
    let mut u = ui();
    let (a, b, c, d) = tree(&mut u);
    let mut f = vec![shown(); u.scene.nodes.len()];
    f[b as usize].clips = true;
    f[c as usize].visible = false;
    let show = |u: &Ui, f: &[PaintFacts], inspect: i32| -> Vec<String> {
        u.scene
            .paint_plan(1, f, 0, inspect)
            .iter()
            .map(|s| match s {
                PaintStep::Inspect(n) => format!("?{}", n),
                PaintStep::Part(n, _) => format!("{}", n),
                PaintStep::Text(n) => format!("t{}", n),
                PaintStep::Image(n, cell) => format!("i{}{}", n, if cell.is_some() { "+" } else { "" }),
                PaintStep::Surface(n) => format!("s{}", n),
                PaintStep::Scissor(n) => format!("[{}", n),
                PaintStep::Unscissor => "]".to_string(),
                PaintStep::Perspective(n) => format!("p{}", n),
            })
            .collect()
    };
    assert_eq!(show(&u, &f, c), vec!["1", "2", "3", "[3", "5", "]", "?4"]);
    assert_eq!((a, b, c, d), (2, 3, 4, 5));
    f[b as usize].clip_empty = true;
    assert_eq!(show(&u, &f, 0), vec!["1", "2", "3"]);
    f[b as usize].clip_empty = false;
    f[b as usize].perspective = true;
    assert_eq!(show(&u, &f, 0), vec!["1", "2", "3", "[3", "p3", "]"]);
    f[1].shown = false;
    assert!(show(&u, &f, 1).is_empty());
    assert!(u.scene.paint_plan(999, &f, 0, 0).is_empty());
    let (t, i, s) = (u.create_node(1), u.create_node(2), u.create_node(3));
    for n in [t, i, s] {
        u.insert_before(1, n, 0);
    }
    let tex = u.upload_texture(&[0; 4], 1, 1, 3);
    u.set_sprite(i, tex, 4, 2, 1);
    u.set_compositor_surface(s, 3, false);
    let mut f = vec![PaintFacts { style: plain(), ..shown() }; u.scene.nodes.len()];
    f[b as usize].shown = false;
    assert_eq!(show(&u, &f, 0), vec!["t6", "i7+", "s8"]);
}

#[test]
fn perspective_is_painted_from_far_to_near() {
    let mut u = ui();
    let (a, b, c, d) = tree(&mut u);
    let flat = SpaceFacts { shown: true, visible: true, quad: None, image: None, text: 0 };
    let mut f = vec![flat; u.scene.nodes.len()];
    f[a as usize].quad = Some(1.0f32.to_bits());
    f[b as usize].quad = Some((-2.0f32).to_bits());
    f[c as usize].quad = Some(1.0f32.to_bits());
    f[d as usize].quad = Some(7.0f32.to_bits());
    let order = |u: &Ui, f: &[SpaceFacts]| -> Vec<u32> {
        u.scene
            .space_plan(1, f)
            .iter()
            .map(|i| match i {
                SpaceItem::Quad(s, _) => *s,
                SpaceItem::Image(s, _) => 100 + *s,
                SpaceItem::Text(s, _) => 200 + *s,
            })
            .collect()
    };
    assert_eq!(order(&u, &f), vec![b as u32, a as u32, c as u32, d as u32]);
    f[b as usize].visible = false;
    assert_eq!(order(&u, &f), vec![a as u32, c as u32]);
    let t = u.create_node(1);
    u.insert_before(1, t, 0);
    f.push(SpaceFacts { text: 0.5f32.to_bits(), image: Some(9), ..flat });
    assert_eq!(order(&u, &f), vec![200 + t as u32, a as u32, c as u32]);
}

#[test]
fn text_is_drawn_as_it_was_laid_out() {
    assert_eq!(text_route(true, false, true, 0, false), (TextRoute::Native, false));
    assert_eq!(text_route(true, false, true, 0, true), (TextRoute::Native, true));
    assert_eq!(text_route(false, false, true, 0, false), (TextRoute::Atlas, true));
    assert_eq!(text_route(false, true, true, 0, false), (TextRoute::Atlas, false));
    assert_eq!(text_route(false, false, true, 1.0f32.to_bits(), false), (TextRoute::Atlas, false));
    assert_eq!(text_route(false, false, false, 0, false), (TextRoute::Atlas, false));
}

#[test]
fn contacts_keep_their_node() {
    let mut t = HitTable::new();
    assert_eq!(t.resolve(&[1, 2], &[10, 20]), vec![10, 20]);
    assert_eq!(t.resolve(&[2, 3], &[99, 30]), vec![20, 30]);
    assert_eq!(t.resolve(&[1, 2], &[11, 98]), vec![11, 20]);
    assert_eq!(t.resolve(&[], &[]), vec![]);
    assert_eq!(t.resolve(&[2], &[5]), vec![5]);
    let many: Vec<u32> = (0..12).collect();
    assert_eq!(t.resolve(&many, &[7; 12]).len(), 8);
    let mut u = ui();
    assert_eq!(u.touch_hits(&[4], &[2]), vec![2]);
    assert_eq!(u.touch_hits(&[4], &[3]), vec![2]);
    assert!(u.touch_hits_auxiliary(&[4], &[3]).is_empty());
}

#[test]
fn functions_are_listed_under_distinct_names() {
    let single = register(false);
    let multi = register(true);
    assert_eq!((single.len(), multi.len()), (43, 46));
    for (a, b) in single.iter().zip(multi.iter()) {
        assert_eq!((a.op, a.name, a.nargs), (b.op, b.name, b.nargs));
    }
    assert_eq!(single[0].name, "createNode");
    assert_eq!(multi[44].name, "appLaunch");
    assert!(single.iter().all(|e| !e.name.starts_with("app")));
    for table in [multi, register_audio()] {
        for (i, a) in table.iter().enumerate() {
            assert!(table[..i].iter().all(|b| a.name != b.name));
        }
    }
    assert_eq!(op_entry(Op::Animate).nargs, 6);
}

fn num(v: i32) -> Arg {
    Arg {
        int: v,
        single: (v as f32).to_bits(),
        bits: v as u32,
    }
}

#[test]
fn calls_become_operations() {
    let u = ui();
    let p = &u.scene.props;
    assert_eq!(arg_at(&[num(5)], 0).int, 5);
    assert_eq!(arg_at(&[num(5)], 1).int, 0);
    assert!(matches!(decode(Op::CreateNode, &[num(257)], p), Some(Command::CreateNode(1))));
    assert!(matches!(decode(Op::CreateNode, &[num(-1)], p), Some(Command::CreateNode(255))));
    assert!(matches!(decode(Op::InsertBefore, &[num(1), num(2)], p), Some(Command::InsertBefore(1, 2, 0))));
    assert!(matches!(decode(Op::SetActive, &[num(1), num(7)], p), Some(Command::SetActive(1, true))));
    match decode(Op::SetProp, &[num(4), num(9), num(2)], p) {
        Some(Command::SetProp(id, prop, bits)) => assert_eq!((id, prop, bits), (4, 9, 2.0f32.to_bits())),
        _ => panic!("a value"),
    }
    match decode(Op::SetProp, &[num(4), num(8), num(-2)], p) {
        Some(Command::SetProp(_, _, bits)) => assert_eq!(bits, 0xffff_fffe),
        _ => panic!("a colour"),
    }
    match decode(Op::Animate, &[num(4), num(9), num(1), num(-5), num(2), num(30)], p) {
        Some(Command::Animate(id, prop, to, dur, easing, delay)) => {
            assert_eq!((id, prop, to, dur, easing, delay), (4, 9, 1.0f32.to_bits(), 0, 2, 30))
        }
        _ => panic!("an animation"),
    }
    match decode(Op::SetSprite, &[num(1), num(2), num(-1), num(3), num(4)], p) {
        Some(Command::SetSprite(_, _, frames, cols, step)) => assert_eq!((frames, cols, step), (u32::MAX, 3, 4)),
        _ => panic!("a sprite"),
    }
    assert!(decode(Op::SetText, &[], p).is_none());
    assert_eq!(prop_bits(KIND_F32, num(1)), 1.0f32.to_bits());
    assert_eq!(prop_bits(KIND_COLOR, num(1)), 1);
}

#[test]
fn operations_run() {
    let mut u = ui();
    let n = u.run(Command::CreateNode(0));
    assert_eq!(n, 2);
    assert_eq!(u.run(Command::CreateNode(9)), 0);
    assert_eq!(u.run(Command::InsertBefore(1, n, 0)), 0);
    assert_eq!(u.scene.tree.slots[1].children, vec![2]);
    u.run(Command::SetProp(n, 8, 77));
    assert_eq!(u.resolved_style(n).unwrap()[8], 77);
    assert!(u.run(Command::Animate(n, 9, 5, 1, 0, 0)) > 0);
    assert_eq!(u.run(Command::Animate(n, 200, 5, 1, 0, 0)), -1);
    u.run(Command::SetFocus(n));
    assert_eq!(u.focused(), n);
    assert_eq!(u.run(Command::DebugRectXy), -1);
    u.run(Command::DebugPause(true));
    u.run(Command::DebugStep);
    assert!(u.debug_paused() && u.step_pending);
    u.run(Command::DestroyNode(n));
    assert!(u.resolved_style(n).is_none());
    assert_eq!(u.focused(), 0);
}

#[test]
fn batches_hold_three_numbers_a_record() {
    let mut bytes = Vec::new();
    for v in [2.0f64, 8.0, 77.0, 2.0, 9.0, 0.5] {
        bytes.extend_from_slice(&v.to_le_bytes());
    }
    bytes.push(1);
    let words = batch_records(&bytes);
    assert_eq!(words.len(), 2);
    assert_eq!(words[1], (2.0f64.to_bits(), 9.0f64.to_bits(), 0.5f64.to_bits()));
    let mut u = ui();
    let n = u.create_node(0);
    assert_eq!(n, 2);
    let records: Vec<PropRecord> = words
        .iter()
        .map(|w| {
            let v = f64::from_bits(w.2);
            PropRecord {
                id: f64::from_bits(w.0) as i32,
                prop: f64::from_bits(w.1) as u8,
                value: Arg {
                    int: v as i32,
                    single: (v as f32).to_bits(),
                    bits: v as i64 as u32,
                },
            }
        })
        .collect();
    u.set_prop_batch(&records);
    let style = u.resolved_style(n).unwrap();
    assert_eq!((style[8], style[9]), (77, 0.5f32.to_bits()));
}

#[test]
fn views_lie_inside_their_buffer() {
    assert_eq!(view_range(0, 4, 4), Some((0, 4)));
    assert_eq!(view_range(3, 1, 4), Some((3, 1)));
    assert_eq!(view_range(4, 1, 4), None);
    assert_eq!(view_range(-1, 1, 4), None);
    assert_eq!(view_range(0, -1, 4), None);
    assert_eq!(view_range(i32::MAX, i32::MAX, 4), None);
}

#[test]
fn upload_calls_need_their_arguments() {
    let mut u = ui();
    let args = [num(0), num(1), num(1), num(3)];
    assert_eq!(u.upload_call(Some(&[1, 2, 3, 4]), &args), 0);
    assert_eq!(u.upload_call(Some(&[1, 2, 3, 4]), &args[..3]), -1);
    assert_eq!(u.upload_call(None, &args), -1);
    assert_eq!(u.upload_call(Some(&[1, 2, 3, 4]), &[num(0), num(-1), num(1), num(3)]), -1);
    assert_eq!(u.img_entry_call(None), -1);
    assert_eq!(u.img_entry_call(Some(&[1, 0, 1, 0, 3, 0, 0, 0, 9, 9, 9, 9])), 1);
    assert_eq!(u.load_tile_call(None, &args), -1);
    assert_eq!(u.load_tile_call(Some(&[]), &args), -1);
}

#[test]
fn nothing_under_a_hidden_node_is_hit() {
    let mut u = ui();
    let (_a, b, c, d) = tree(&mut u);
    let mut f = vec![seen(); u.scene.nodes.len()];
    f[c as usize].seen = false;
    assert_eq!((u.hit_test(&f), u.hit_test_bounds(&f)), (d, d));
    f[b as usize].seen = false;
    assert_ne!(u.hit_test(&f), d);
    assert_ne!(u.hit_test_bounds(&f), d);
    // what is painted lies in a box
    f[b as usize].seen = true;
    f[d as usize].bg = 0;
    assert_eq!((u.hit_test(&f), u.hit_test_bounds(&f)), (b, d));
    f[1].seen = false;
    assert_eq!((u.hit_test(&f), u.hit_test_bounds(&f)), (0, 0));
}
