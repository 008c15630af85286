use pocketjs::bench::{
    bench_in_window, bench_maybe_flush, drawlist_checksum, BenchCounters, BenchInfo, BenchState, FrameTimes,
};
use pocketjs::capture::{
    cap_dump_frame, capture_env_u32, capture_input_mask, dump_name, parse_capture_u32, Dump,
};
use pocketjs::guest::{host_policy, present_due, Action, Event, GuestLoop, Phase};
use pocketjs::json::{push_decimal, push_hexadecimal, push_json_str};
use pocketjs::pool::Pool;
use pocketjs::shot::downscale;
use pocketjs::style::PropTable;
use pocketjs::switch::{find, guest_bytes, multi, EmbeddedApp, Sections, Switch};
use pocketjs::ui::Ui;

fn app(output: &str) -> EmbeddedApp {
    EmbeddedApp {
        output: output.to_string(),
        id: format!("id.{}", output),
        title: format!("The \"{}\"", output),
        js: vec![1, 2, 0],
        pak: vec![3],
        pocket: vec![],
    }
}

#[test]
fn benchmark_counters_reset_and_record() {
    let mut c = BenchCounters::new();
    c.bench_record_fallback_glyph_run();
    c.bench_record_tileset_upload();
    assert_eq!(c.bench_counters(), (1, 1));
    c.bench_reset_counters();
    assert_eq!(c.bench_counters(), (0, 0));
}

#[test]
fn counters_stop_at_their_largest_value() {
    let mut c = BenchCounters {
        fallback_glyph_runs: u32::MAX,
        tileset_uploads: u32::MAX - 1,
    };
    c.bench_record_fallback_glyph_run();
    c.bench_record_tileset_upload();
    c.bench_record_tileset_upload();
    assert_eq!(c.bench_counters(), (u32::MAX, u32::MAX));
}

#[test]
fn checksums_carry_on() {
    let h = 0xcbf2_9ce4_8422_2325;
    let both = drawlist_checksum(h, &[1, 2, 3]);
    assert_eq!(drawlist_checksum(drawlist_checksum(h, &[1]), &[2, 3]), both);
    assert_eq!(drawlist_checksum(h, &[]), h);
    assert_ne!(drawlist_checksum(h, &[1, 3, 2]), both);
}

#[test]
fn reports_come_at_the_end_of_the_window() {
    let mut b = BenchState::new(1000);
    let t = |start: u64| FrameTimes {
        start,
        after_js: start + 10,
        after_jobs: start + 12,
        after_tick: start + 15,
        after_draw: start + 20,
        after_render: start + 30,
        present_us: 5,
    };
    assert!(!bench_in_window(9, 10, 2));
    assert!(bench_in_window(10, 10, 2));
    assert!(bench_in_window(11, 10, 2));
    assert!(!bench_in_window(12, 10, 2));
    b.bench_record_frame(9, 10, 2, t(0));
    assert_eq!(b.frames, 0);
    b.bench_record_frame(10, 10, 2, t(2000));
    b.bench_record_frame(11, 10, 2, t(2100));
    b.bench_record_gpu(11, 10, 2, 7);
    b.bench_record_drawlist(11, 10, 2, &[1, 2]);
    assert_eq!(b.frames, 2);
    assert_eq!(b.js_sum_us, 20);
    assert_eq!(b.max_gpu_us, 7);
    assert_eq!(b.frame_interval_sum_us, 100);
    let info = BenchInfo {
        app: "demo".to_string(),
        sim_hz: 60,
        stack_free_bytes: -1,
        js_bytes: 101,
        pak_bytes: 7,
        arena_capacity_bytes: 0,
        arena_bump_bytes: 0,
        arena_tail_free_bytes: 0,
        arena_init_free_bytes: 0,
        arena_configured_bytes: 0,
    };
    let c = BenchCounters::new();
    assert!(bench_maybe_flush(&b, &info, &c, 10, 10, 2).is_none());
    let line = bench_maybe_flush(&b, &info, &c, 11, 10, 2).unwrap();
    assert!(line.starts_with("{\"app\":\"demo\",\"sim_hz\":60,\"frames\":2,\"window_start\":10,\"window_n\":2,"));
    assert!(line.contains("\"avg_frame_interval_us\":100,"));
    assert!(line.contains("\"avg_js_us\":10,"));
    assert!(line.contains("\"stack_free_bytes\":0,\"bundle_bytes\":100,\"pak_bytes\":7,"));
    assert!(line.ends_with("\"}\n"));
}

#[test]
fn apps_are_found_by_output() {
    let apps = vec![app("launcher"), app("game"), app("game")];
    assert!(multi(&apps));
    assert!(!multi(&apps[..1]));
    assert_eq!(find(&apps, "game"), Some(1));
    assert_eq!(find(&apps, "gam"), None);
    let mut sw = Switch::new();
    assert!(!sw.launch(&apps, "nothing"));
    assert_eq!(sw.pending, None);
    assert!(sw.launch(&apps, "game"));
    assert_eq!(sw.pending, Some(1));
}

#[test]
fn guests_boot_from_the_table_or_from_a_package() {
    let mut apps = vec![app("a")];
    let g = guest_bytes(&apps, 0, None).unwrap();
    assert_eq!((g.js, g.pak), (&[1u8, 2, 0][..], &[3u8][..]));
    apps[0].pocket = vec![9];
    assert!(guest_bytes(&apps, 0, None).is_none());
    let js = [5u8, 0];
    let g = guest_bytes(&apps, 0, Some(Sections { js: Some(&js), pak: None })).unwrap();
    assert_eq!((g.js, g.pak), (&[5u8, 0][..], &[][..]));
    assert!(guest_bytes(&apps, 0, Some(Sections { js: None, pak: Some(&js) })).is_none());
}

#[test]
fn requests_are_taken_once() {
    let mut sw = Switch::new();
    assert_eq!(sw.take_pending(), None);
    sw.set_current(2);
    sw.request_launch(1);
    sw.request_summon();
    assert_eq!(sw.take_pending(), Some((0, true)));
    assert_eq!(sw.resume(), Some(2));
    assert_eq!(sw.take_pending(), None);
    assert_eq!(sw.resume(), Some(2));
    sw.request_summon();
    sw.request_launch(1);
    assert_eq!(sw.take_pending(), Some((1, false)));
    assert_eq!(sw.resume(), None);
}

#[test]
fn the_table_is_json() {
    let apps = vec![app("a"), app("b")];
    let mut sw = Switch::new();
    sw.set_current(1);
    assert_eq!(sw.current(), 1);
    assert_eq!(sw.current_output(&apps), "b");
    assert_eq!(
        sw.table_json(&apps),
        "{\"apps\":[{\"output\":\"a\",\"id\":\"id.a\",\"title\":\"The \\\"a\\\"\"},\
         {\"output\":\"b\",\"id\":\"id.b\",\"title\":\"The \\\"b\\\"\"}],\"current\":\"b\",\"resume\":null}"
    );
    sw.resume = Some(0);
    assert!(sw.table_json(&apps).ends_with("\"resume\":\"a\"}"));
}

#[test]
fn json_strings_are_escaped() {
    let mut out = String::new();
    push_json_str(&mut out, "a\"\\\n\u{1f}\u{20}é");
    assert_eq!(out, "\"a\\\"\\\\\\u000a\\u001f é\"");
    let mut out = String::new();
    push_decimal(&mut out, 0);
    push_decimal(&mut out, 12345678901234567890);
    push_hexadecimal(&mut out, 0xbeef, 6);
    assert_eq!(out, "01234567890123456789000beef");
}

#[test]
fn pictures_go_to_the_summoned_app_only() {
    let frame = vec![100u8; 557056];
    let shot = downscale(&frame);
    assert_eq!(shot.len(), 131072);
    assert_eq!(&shot[..4], &[100, 100, 100, 255]);
    let mut sw = Switch::new();
    assert!(sw.shot_pixels().is_none());
    sw.capture_shot(Some(&frame));
    assert_eq!(sw.shot_pixels().unwrap(), &shot[..]);
    sw.request_launch(1);
    sw.take_pending();
    let mut ui = Ui::new(PropTable::new());
    sw.upload_shot(&mut ui);
    assert_eq!(sw.shot_handle(), -1);
    assert_eq!(ui.texture_slot_count(), 0);
    sw.request_summon();
    sw.take_pending();
    sw.upload_shot(&mut ui);
    assert_eq!(sw.shot_handle(), 0);
    let v = ui.texture(0).unwrap();
    assert_eq!((v.w, v.h, v.linear), (256, 128, true));
    assert_eq!(v.pixels, &shot[..]);
    sw.capture_shot(None);
    assert!(sw.shot_pixels().is_none());
}

#[test]
fn pictures_are_smoothed() {
    // left half black, right half white
    let mut frame = vec![0u8; 557056];
    for y in 0..272 {
        for x in 240..480 {
            for c in 0..4 {
                frame[y * 2048 + x * 4 + c] = 255;
            }
        }
    }
    let shot = downscale(&frame);
    let px = |x: usize, y: usize| shot[(y * 256 + x) * 4];
    assert_eq!(px(0, 0), 0);
    assert_eq!(px(127, 64), 0);
    assert_eq!(px(128, 64), 255);
    assert_eq!(px(255, 127), 255);
}

#[test]
fn capture_numbers() {
    assert_eq!(parse_capture_u32(b" 42 ", 0, 4), Some(42));
    assert_eq!(parse_capture_u32(b"0x1F", 0, 4), Some(31));
    assert_eq!(parse_capture_u32(b"4x", 0, 2), None);
    assert_eq!(parse_capture_u32(b"", 0, 0), None);
    assert_eq!(parse_capture_u32(b"99999999999", 0, 11), Some(u32::MAX));
    assert_eq!(capture_env_u32(b"7", 3), 7);
    assert_eq!(capture_env_u32(b"seven", 3), 3);
    let s = b"0:0,20:0x40,24:0";
    assert_eq!(capture_input_mask(s, 0, 9), 0);
    assert_eq!(capture_input_mask(s, 19, 9), 0);
    assert_eq!(capture_input_mask(s, 20, 9), 0x40);
    assert_eq!(capture_input_mask(s, 23, 9), 0x40);
    assert_eq!(capture_input_mask(s, 24, 9), 0);
    assert_eq!(capture_input_mask(b"5:1", 4, 9), 9);
    assert_eq!(capture_input_mask(b"5:1;5:2", 5, 9), 2);
    assert_eq!(capture_input_mask(b"x:1,2:3", 5, 9), 3);
}

#[test]
fn dumps_of_a_window() {
    assert_eq!(dump_name(7), "ms0:/dc_cap/f0007.raw");
    assert_eq!(dump_name(1234), "ms0:/dc_cap/f1234.raw");
    assert!(matches!(cap_dump_frame(15, 16, 2, true), Dump::Skip));
    match cap_dump_frame(16, 16, 2, true) {
        Dump::Write { first, name, last } => {
            assert!(first && !last);
            assert_eq!(name, "ms0:/dc_cap/f0000.raw");
        }
        _ => panic!("the first frame is written"),
    }
    assert!(matches!(cap_dump_frame(17, 16, 2, true), Dump::Write { first: false, last: true, .. }));
    assert!(matches!(cap_dump_frame(18, 16, 2, true), Dump::Skip));
    assert!(matches!(cap_dump_frame(16, 16, 2, false), Dump::Skip));
    assert!(matches!(cap_dump_frame(17, 16, 2, false), Dump::Exit));
}

#[test]
fn policies_and_presents() {
    assert_eq!(host_policy(false), (60, 1));
    assert_eq!(host_policy(true), (20, 3));
    assert!(present_due(13, 10, 3, true));
    assert!(!present_due(12, 10, 3, true));
    assert!(!present_due(13, 10, 3, false));
    assert!(present_due(1, u32::MAX - 1, 3, true));
}

fn drive(g: &mut GuestLoop, sw: &mut Switch, pads: &[u32]) -> Vec<Action> {
    let mut out = Vec::new();
    let mut a = g.boot(sw, 1);
    let mut pads = pads.iter();
    loop {
        out.push(a);
        let ev = match a {
            Action::ReturnTo(_) | Action::Halt => return out,
            Action::PeekPad => match pads.next() {
                Some(p) => Event::Pad(*p, 0x12, 0x34),
                None => return out,
            },
            Action::DrainJobs | Action::Collect => Event::Heap(0),
            _ => Event::Done(true),
        };
        a = g.step(sw, ev);
    }
}

#[test]
fn a_frame_runs_in_order() {
    let mut g = GuestLoop::new(true, 3, None);
    let mut sw = Switch::new();
    let a = drive(&mut g, &mut sw, &[0x10, 0x10]);
    assert_eq!(
        &a[..7],
        &[
            Action::ReadBytes,
            Action::StartCore,
            Action::NewRuntime,
            Action::NewContext,
            Action::Evaluate,
            Action::FindFrame,
            Action::PeekPad
        ]
    );
    assert_eq!(
        &a[7..14],
        &[
            Action::CallFrame(0x10, 0x1234),
            Action::DrainJobs,
            Action::Tick(3),
            Action::Draw,
            Action::Present,
            Action::Render,
            Action::PeekPad
        ]
    );
    assert_eq!(g.guest_frame, 2);
    assert_eq!(g.global_frame, 2);
}

#[test]
fn the_summon_button_never_reaches_a_guest() {
    let mut g = GuestLoop::new(true, 3, None);
    let mut sw = Switch::new();
    sw.set_current(1);
    let a = drive(&mut g, &mut sw, &[0, 0x11]);
    assert!(a.contains(&Action::CallFrame(0x10, 0x1234)));
    assert_eq!(a[a.len() - 2], Action::Teardown);
    assert_eq!(a[a.len() - 1], Action::ReturnTo(0));
    assert_eq!(sw.resume(), Some(1));
    // a button that is held since before the app booted does not summon
    let mut g = GuestLoop::new(true, 3, None);
    let mut sw = Switch::new();
    let a = drive(&mut g, &mut sw, &[0x11, 0x11, 0x11]);
    assert!(!a.contains(&Action::Teardown));
    assert!(!a.contains(&Action::CallFrame(0x11, 0x1234)));
    assert_eq!(g.phase, Phase::Pad);
    assert_eq!(sw.pending, None);
}

#[test]
fn single_apps_see_all_buttons() {
    let mut g = GuestLoop::new(false, 1, None);
    let mut sw = Switch::new();
    let a = drive(&mut g, &mut sw, &[0x11]);
    assert!(a.contains(&Action::CallFrame(0x11, 0x1234)));
}

#[test]
fn input_scripts_replace_the_controller_and_dump_one_frame_late() {
    let mut g = GuestLoop::new(false, 1, Some(b"0:0x40".to_vec()));
    let mut sw = Switch::new();
    let a = drive(&mut g, &mut sw, &[0, 0]);
    assert!(a.contains(&Action::CallFrame(0x40, 0x8080)));
    assert!(a.contains(&Action::Dump(0)));
    assert!(!a.contains(&Action::Dump(1)));
}

#[test]
fn failing_apps_fall_back_to_the_launcher() {
    let mut g = GuestLoop::new(true, 3, None);
    let mut sw = Switch::new();
    g.boot(&mut sw, 1);
    assert_eq!(g.step(&mut sw, Event::Done(false)), Action::ReturnTo(0));
    let mut g = GuestLoop::new(true, 3, None);
    g.boot(&mut sw, 0);
    assert_eq!(g.step(&mut sw, Event::Done(false)), Action::Halt);
}

#[test]
fn pool_space_is_not_handed_out_twice() {
    let mut p = Pool::new();
    assert_eq!(p.pool_alloc(10), (0, 0));
    assert_eq!(p.pool_alloc(16), (0, 16));
    assert_eq!(p.pool_alloc(70000), (1, 0));
    assert_eq!(p.pool_alloc(1), (2, 0));
    p.reset_pool();
    assert_eq!(p.pool_alloc(65536), (0, 0));
    assert_eq!(p.pool_alloc(65536), (1, 0));
    assert_eq!(p.blocks.len(), 3);
}
