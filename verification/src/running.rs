//! How apps run: booting, input, switching, measuring.
use crate::bench::{report_fields, BenchCounters, BenchInfo, BenchState, FrameTimes};
use crate::capture::{
    digit_of, digits_of, hex_prefix, in_force, is_blank, law_threshold_in_force, number_in,
    scripted_mask, skip_blanks, skip_token, thresholds, Threshold,
};
use crate::constants::GC_BUMP_STEP;
use crate::guest::{pressed, Action, Event, GuestLoop, Phase};
use crate::json::{decimal, digits_value, hex_of, hex_value, hexadecimal, law_decimal_reads_back};
use crate::switch::Switch;
use vstd::prelude::*;

verus! {

// ---- booting ----------------------------------------------------------------------------------

/// An app boots step by step: its bytes, the core, the runtime, the context,
/// its script, its frame function; then its first frame begins with the pad.
pub proof fn law_boot_order(g: GuestLoop, sw: Switch)
    requires
        g.phase == Phase::Load,
    ensures
        ({
            let ok = Event::Done(true);
            let (g1, a1) = g.stepped(sw, ok);
            let (g2, a2) = g1.stepped(sw, ok);
            let (g3, a3) = g2.stepped(sw, ok);
            let (g4, a4) = g3.stepped(sw, ok);
            let (g5, a5) = g4.stepped(sw, ok);
            let (g6, a6) = g5.stepped(sw, ok);
            &&& a1 == Action::StartCore
            &&& a2 == Action::NewRuntime
            &&& a3 == Action::NewContext
            &&& a4 == Action::Evaluate
            &&& a5 == Action::FindFrame
            &&& a6 == Action::PeekPad
            &&& g6 == (GuestLoop { phase: Phase::Pad, ..g })
        }),
{
}

/// An app whose bytes, script or frame function are not there gives way to the
/// launcher, and the launcher, like an only app, to nothing; without a runtime or
/// a context the host stops. No step goes on after that.
pub proof fn law_failing_apps_give_way(g: GuestLoop, sw: Switch)
    requires
        g.phase == Phase::Load || g.phase == Phase::Eval || g.phase == Phase::Lookup || g.phase
            == Phase::Runtime || g.phase == Phase::Context,
    ensures
        ({
            let (n, a) = g.stepped(sw, Event::Done(false));
            let fatal = g.phase == Phase::Runtime || g.phase == Phase::Context;
            &&& a == (if !fatal && g.multi && g.app != 0 {
                Action::ReturnTo(0)
            } else {
                Action::Halt
            })
            &&& n.phase == Phase::Over
            &&& !n.awaits(Event::Done(true))
            &&& g.switched(sw, Event::Done(false)) == sw
        }),
{
}

/// Garbage is collected after a frame in which the heap grew by more than a
/// quarter of a megabyte since the last time, and then the frame goes on.
pub proof fn law_garbage_is_collected(g: GuestLoop, sw: Switch, bump: usize, left: usize)
    requires
        g.phase == Phase::Jobs,
    ensures
        ({
            let (n, a) = g.stepped(sw, Event::Heap(bump));
            let (t, b) = n.stepped(sw, Event::Heap(left));
            &&& bump > g.last_gc + 262144 ==> a == Action::Collect && b == Action::Tick(g.ticks)
                && t.last_gc == left && t.phase == Phase::Tick
            &&& bump <= g.last_gc + 262144 ==> a == Action::Tick(g.ticks) && n.last_gc == g.last_gc
                && n.phase == Phase::Tick
        }),
{
}

// ---- input --------------------------------------------------------------------------------------

/// Without a script an app sees the buttons of the pad, all but the summon
/// button, which is the lowest bit, where the host keeps that; and the stick, its
/// horizontal position in the high byte. While a script runs the stick rests.
pub proof fn law_apps_see_the_pad(g: GuestLoop, sw: Switch, pad: u32, lx: u8, ly: u8, bit: u32)
    requires
        g.phase == Phase::Pad,
        bit % 2 == 0,
        bit > 0,
    ensures
        g.stepped(sw, Event::Pad(pad, lx, ly)).1 matches Action::CallFrame(mask, stick) && {
            &&& g.script is None ==> stick == 256 * lx + ly && pressed(mask, bit) == pressed(
                pad,
                bit,
            ) && (!g.multi || g.app == 0 ==> mask == pad)
            &&& g.script is Some ==> stick == 256 * 128 + 128
            &&& g.multi && g.app != 0 ==> mask % 2 == 0
        },
{
    if g.script is None && g.multi && g.app != 0 && pad % 2 == 1 {
        let (p, b, h) = (pad as int, bit as int, bit as int / 2);
        let (q, r) = (p / b, p % b);
        assert(p == q * b + r && 0 <= r < b) by (nonlinear_arith)
            requires
                q == p / b,
                r == p % b,
                0 < b,
        ;
        assert(q * b == 2 * (q * h)) by (nonlinear_arith)
            requires
                b == 2 * h,
        ;
        assert(r >= 1);
        assert((p - 1) / b == q) by (nonlinear_arith)
            requires
                p - 1 == q * b + (r - 1),
                0 <= r - 1 < b,
        ;
    }
}

/// The summon button of an app that did not hold it down asks for the launcher,
/// to come back from; with the launcher or an only app it asks for nothing.
pub proof fn law_summon_button_asks_for_the_launcher(
    g: GuestLoop,
    sw: Switch,
    pad: u32,
    lx: u8,
    ly: u8,
)
    requires
        g.phase == Phase::Pad,
        g.script is None,
    ensures
        ({
            let n = g.switched(sw, Event::Pad(pad, lx, ly));
            let (after, _a) = g.stepped(sw, Event::Pad(pad, lx, ly));
            let down = pad % 2 == 1;
            &&& g.multi && g.app != 0 && down && !g.prev_select ==> n == (Switch {
                pending: Some(0),
                pending_summon: true,
                ..sw
            })
            &&& !(g.multi && g.app != 0 && down && !g.prev_select) ==> n == sw
            &&& g.multi && g.app != 0 ==> after.prev_select == down
        }),
{
}

// ---- scripts --------------------------------------------------------------------------------------

proof fn lemma_no_blanks(s: Seq<u8>, i: int, end: int)
    requires
        0 <= i <= end <= s.len(),
        forall|k: int| i <= k < end ==> !is_blank(#[trigger] s[k]),
    ensures
        skip_blanks(s, i, end) == i,
        skip_token(s, i, end) == end,
    decreases end - i,
{
    if i < end {
        lemma_no_blanks(s, i + 1, end);
    }
}

/// The bytes of a text.
pub open spec fn spells(s: Seq<u8>, text: Seq<char>) -> bool {
    s.len() == text.len() && forall|i: int|
        #![trigger s[i]]
        0 <= i < s.len() ==> s[i] as char == text[i]
}

proof fn lemma_decimal_digits(v: int)
    requires
        0 <= v,
    ensures
        decimal(v).len() >= 1,
        forall|i: int|
            #![trigger decimal(v)[i]]
            0 <= i < decimal(v).len() ==> '0' <= decimal(v)[i] <= '9',
    decreases v,
{
    if v >= 10 {
        lemma_decimal_digits(v / 10);
    }
}

proof fn lemma_digits_spelled(s: Seq<u8>, text: Seq<char>, n: int)
    requires
        0 <= n <= text.len(),
        spells(s, text),
        forall|i: int| #![trigger text[i]] 0 <= i < text.len() ==> '0' <= text[i] <= '9',
    ensures
        digits_of(s, 0, n, false) == Some(digits_value(text.take(n), 10)),
    decreases n,
{
    if n > 0 {
        lemma_digits_spelled(s, text, n - 1);
        let t = text.take(n);
        assert(t.drop_last() =~= text.take(n - 1));
        assert(t.last() == text[n - 1]);
        assert(s[n - 1] as char == text[n - 1]);
        assert('0' <= text[n - 1] <= '9');
    } else {
        assert(text.take(0) =~= Seq::<char>::empty());
    }
}

/// A number that is written in decimal reads as itself, and one past 32 bits as
/// the largest of them.
pub proof fn law_written_numbers_read(v: int, s: Seq<u8>)
    requires
        0 <= v,
        spells(s, decimal(v)),
    ensures
        number_in(s, 0, s.len() as int) == Some(
            if v < 0xffff_ffff {
                v
            } else {
                0xffff_ffff
            },
        ),
{
    let text = decimal(v);
    lemma_decimal_digits(v);
    assert forall|k: int| 0 <= k < s.len() implies !is_blank(#[trigger] s[k]) && 0x30 <= s[k]
        <= 0x39 by {
        assert(s[k] as char == text[k]);
        assert('0' <= text[k] <= '9');
    }
    lemma_no_blanks(s, 0, s.len() as int);
    lemma_digits_spelled(s, text, text.len() as int);
    assert(text.take(text.len() as int) =~= text);
    law_decimal_reads_back(v);
    if s.len() > 1 {
        assert(s[1] <= 0x39);
    }
}

/// A digit more at the end makes ten, or behind a prefix sixteen, times the
/// number and that digit; letters of either case are the digits from ten on.
pub proof fn law_digits_weigh(s: Seq<u8>, from: int, to: int, hex: bool)
    requires
        0 <= from <= to < s.len(),
        digits_of(s, from, to, hex) is Some,
        0x30 <= s[to] <= 0x39 || hex && (0x61 <= s[to] <= 0x66 || 0x41 <= s[to] <= 0x46),
    ensures
        digits_of(s, from, from, hex) == Some(0int),
        digits_of(s, from, to + 1, hex) == Some(
            digits_of(s, from, to, hex)->0 * (if hex {
                16int
            } else {
                10
            }) + (if s[to] <= 0x39 {
                s[to] - 0x30
            } else {
                s[to] % 0x20 + 9
            }),
        ),
{
}

/// A script gives a frame the mask of its latest threshold that is not past the
/// frame, and what the pad says before the first one.
pub proof fn law_script_decides(s: Seq<u8>, frame: int, fallback: int, i: int)
    requires
        0 <= i < thresholds(s, 0).len(),
        thresholds(s, 0)[i].frame <= frame,
        forall|j: int|
            #![trigger thresholds(s, 0)[j]]
            0 <= j < thresholds(s, 0).len() && j != i && thresholds(s, 0)[j].frame <= frame
                ==> thresholds(s, 0)[j].frame < thresholds(s, 0)[i].frame,
    ensures
        scripted_mask(s, frame, fallback) == thresholds(s, 0)[i].mask,
{
    let ts = thresholds(s, 0);
    law_threshold_in_force(None, ts, frame);
    let t = in_force(None, ts, frame);
    assert(ts[i].frame <= frame);
    assert(t is Some);
    let j = choose|j: int| 0 <= j < ts.len() && ts[j] == t->0;
    assert(ts[j].frame <= frame);
}

/// Without a threshold for the frame or before it the pad decides.
pub proof fn law_pad_decides_before_the_script(s: Seq<u8>, frame: int, fallback: int)
    requires
        forall|j: int|
            #![trigger thresholds(s, 0)[j]]
            0 <= j < thresholds(s, 0).len() ==> thresholds(s, 0)[j].frame > frame,
    ensures
        scripted_mask(s, frame, fallback) == fallback,
{
    law_threshold_in_force(None, thresholds(s, 0), frame);
    let t = in_force(None, thresholds(s, 0), frame);
    if t is Some {
        let ts = thresholds(s, 0);
        let j = choose|j: int| 0 <= j < ts.len() && ts[j] == t->0;
        assert(ts[j].frame > frame);
    }
}

// ---- numbers as text --------------------------------------------------------------------------------

/// Sixteen to the power of `n`.
pub open spec fn pow16(n: nat) -> int
    decreases n,
{
    if n == 0 {
        1
    } else {
        16 * pow16((n - 1) as nat)
    }
}

/// Hexadecimal numbers of a fixed length read back as themselves.
pub proof fn law_hexadecimal_reads_back(v: int, digits: nat)
    requires
        0 <= v < pow16(digits),
    ensures
        hexadecimal(v, digits).len() == digits,
        digits_value(hexadecimal(v, digits), 16) == v,
    decreases digits,
{
    if digits > 0 {
        law_hexadecimal_reads_back(v / 16, (digits - 1) as nat);
        let h = hexadecimal(v, digits);
        assert(h.drop_last() =~= hexadecimal(v / 16, (digits - 1) as nat));
        assert(h.last() == hex_of(v % 16));
        assert(hex_value(hex_of(v % 16)) == v % 16);
    }
}

// ---- measuring --------------------------------------------------------------------------------------

/// The phases of a frame add up to its work: script, jobs, steps, drawing and
/// rendering, without the time that showing the last frame took.
pub proof fn law_phases_add_up(b: BenchState, t: FrameTimes)
    requires
        t.start <= t.after_js <= t.after_jobs <= t.after_tick <= t.after_draw,
        t.after_draw + t.present_us <= t.after_render,
        b.js_sum_us == 0,
        b.jobs_sum_us == 0,
        b.tick_sum_us == 0,
        b.draw_sum_us == 0,
        b.render_sum_us == 0,
        b.work_sum_us == 0,
        b.frames < u32::MAX,
    ensures
        ({
            let n = b.with_frame(t);
            &&& n.js_sum_us + n.jobs_sum_us + n.tick_sum_us + n.draw_sum_us + n.render_sum_us
                == n.work_sum_us
            &&& t.start + n.js_sum_us == t.after_js
            &&& t.after_js + n.jobs_sum_us == t.after_jobs
            &&& t.after_jobs + n.tick_sum_us == t.after_tick
            &&& t.after_tick + n.draw_sum_us == t.after_draw
            &&& t.after_draw + t.present_us + n.render_sum_us == t.after_render
            &&& n.frames == b.frames + 1
            &&& n.previous_frame_start_us == t.start
            &&& n.max_work_us >= n.work_sum_us && n.max_work_us >= b.max_work_us
        }),
{
}

/// Two frames after another add what each of them adds alone.
pub proof fn law_frames_add_up(b: BenchState, t: FrameTimes, zero: BenchState)
    requires
        zero.js_sum_us == 0 && zero.jobs_sum_us == 0 && zero.tick_sum_us == 0,
        zero.draw_sum_us == 0 && zero.render_sum_us == 0 && zero.work_sum_us == 0,
        b.js_sum_us + zero.with_frame(t).js_sum_us < u64::MAX,
        b.jobs_sum_us + zero.with_frame(t).jobs_sum_us < u64::MAX,
        b.tick_sum_us + zero.with_frame(t).tick_sum_us < u64::MAX,
        b.draw_sum_us + zero.with_frame(t).draw_sum_us < u64::MAX,
        b.render_sum_us + zero.with_frame(t).render_sum_us < u64::MAX,
        b.work_sum_us + zero.with_frame(t).work_sum_us < u64::MAX,
    ensures
        ({
            let (n, o) = (b.with_frame(t), zero.with_frame(t));
            &&& n.js_sum_us == b.js_sum_us + o.js_sum_us
            &&& n.jobs_sum_us == b.jobs_sum_us + o.jobs_sum_us
            &&& n.tick_sum_us == b.tick_sum_us + o.tick_sum_us
            &&& n.draw_sum_us == b.draw_sum_us + o.draw_sum_us
            &&& n.render_sum_us == b.render_sum_us + o.render_sum_us
            &&& n.work_sum_us == b.work_sum_us + o.work_sum_us
        }),
{
}

/// A report has a number of this name that is the mean of a sum over the frames,
/// rounded down.
pub open spec fn has_mean(fields: Seq<(Seq<char>, int)>, name: Seq<char>, sum: int, n: int) -> bool {
    exists|i: int|
        #![trigger fields[i]]
        0 <= i < fields.len() && fields[i].0 == name && fields[i].1 * n <= sum < (fields[i].1 + 1)
            * n
}

/// The means of a report are those of the sums of their names.
pub proof fn law_report_holds_means(
    b: BenchState,
    info: BenchInfo,
    counters: BenchCounters,
    start: u32,
    n: u32,
)
    requires
        b.frames > 0,
    ensures
        ({
            let f = report_fields(b, info, counters, start, n);
            let k = b.frames as int;
            &&& has_mean(f, "avg_js_us"@, b.js_sum_us as int, k)
            &&& has_mean(f, "avg_jobs_us"@, b.jobs_sum_us as int, k)
            &&& has_mean(f, "avg_tick_us"@, b.tick_sum_us as int, k)
            &&& has_mean(f, "avg_draw_us"@, b.draw_sum_us as int, k)
            &&& has_mean(f, "avg_render_us"@, b.render_sum_us as int, k)
            &&& has_mean(f, "avg_work_us"@, b.work_sum_us as int, k)
            &&& has_mean(f, "avg_gpu_us"@, b.gpu_sum_us as int, k)
            &&& b.frames > 1 ==> has_mean(
                f,
                "avg_frame_interval_us"@,
                b.frame_interval_sum_us as int,
                k - 1,
            )
        }),
{
    let f = report_fields(b, info, counters, start, n);
    let k = b.frames as int;
    lemma_mean(b.js_sum_us as int, k);
    lemma_mean(b.jobs_sum_us as int, k);
    lemma_mean(b.tick_sum_us as int, k);
    lemma_mean(b.draw_sum_us as int, k);
    lemma_mean(b.render_sum_us as int, k);
    lemma_mean(b.work_sum_us as int, k);
    lemma_mean(b.gpu_sum_us as int, k);
    if b.frames > 1 {
        lemma_mean(b.frame_interval_sum_us as int, k - 1);
    }
    assert(f[7].0 == "avg_frame_interval_us"@);
    assert(f[9].0 == "avg_js_us"@ && f[10].0 == "avg_jobs_us"@);
    assert(f[11].0 == "avg_tick_us"@ && f[12].0 == "avg_draw_us"@);
    assert(f[13].0 == "avg_render_us"@ && f[14].0 == "avg_work_us"@);
    assert(f[16].0 == "avg_gpu_us"@);
}

proof fn lemma_mean(sum: int, n: int)
    by (nonlinear_arith)
    requires
        0 <= sum,
        0 < n,
    ensures
        (sum / n) * n <= sum < (sum / n + 1) * n,
{
}

/// The other figures of a report are those of their names: spans from the start
/// of the run, the largest of each, counts, and what is known of memory.
pub proof fn law_report_holds_figures(
    b: BenchState,
    info: BenchInfo,
    counters: BenchCounters,
    start: u32,
    n: u32,
)
    requires
        b.run_start_us <= b.eval_begin_us <= b.eval_end_us <= b.frame0_complete_us,
        info.js_bytes >= 1,
        info.stack_free_bytes >= 0,
    ensures
        ({
            let f = report_fields(b, info, counters, start, n);
            &&& f.contains(("sim_hz"@, info.sim_hz as int))
            &&& f.contains(("frames"@, b.frames as int))
            &&& f.contains(("window_start"@, start as int))
            &&& f.contains(("window_n"@, n as int))
            &&& f.contains(("eval_us"@, b.eval_end_us - b.eval_begin_us))
            &&& f.contains(("boot_to_eval_begin_us"@, b.eval_begin_us - b.run_start_us))
            &&& f.contains(("boot_to_frame0_us"@, b.frame0_complete_us - b.run_start_us))
            &&& f.contains(("max_frame_interval_us"@, b.max_frame_interval_us as int))
            &&& f.contains(("max_work_us"@, b.max_work_us as int))
            &&& f.contains(("max_gpu_us"@, b.max_gpu_us as int))
            &&& f.contains(("fallback_glyph_runs"@, counters.fallback_glyph_runs as int))
            &&& f.contains(("tileset_uploads"@, counters.tileset_uploads as int))
            &&& f.contains(("stack_free_bytes"@, info.stack_free_bytes as int))
            &&& f.contains(("bundle_bytes"@, info.js_bytes - 1))
            &&& f.contains(("pak_bytes"@, info.pak_bytes as int))
            &&& f.contains(("arena_capacity_bytes"@, info.arena_capacity_bytes as int))
            &&& f.contains(("arena_bump_bytes"@, info.arena_bump_bytes as int))
            &&& f.contains(("arena_tail_free_bytes"@, info.arena_tail_free_bytes as int))
            &&& f.contains(("arena_init_free_bytes"@, info.arena_init_free_bytes as int))
            &&& f.contains(("arena_configured_bytes"@, info.arena_configured_bytes as int))
            &&& f.len() == 28
        }),
{
    let f = report_fields(b, info, counters, start, n);
    assert(f[0] == ("sim_hz"@, info.sim_hz as int));
    assert(f[1] == ("frames"@, b.frames as int));
    assert(f[2] == ("window_start"@, start as int));
    assert(f[3] == ("window_n"@, n as int));
    assert(f[4] == ("eval_us"@, b.eval_end_us - b.eval_begin_us));
    assert(f[5] == ("boot_to_eval_begin_us"@, b.eval_begin_us - b.run_start_us));
    assert(f[6] == ("boot_to_frame0_us"@, b.frame0_complete_us - b.run_start_us));
    assert(f[8] == ("max_frame_interval_us"@, b.max_frame_interval_us as int));
    assert(f[15] == ("max_work_us"@, b.max_work_us as int));
    assert(f[17] == ("max_gpu_us"@, b.max_gpu_us as int));
    assert(f[18] == ("fallback_glyph_runs"@, counters.fallback_glyph_runs as int));
    assert(f[19] == ("tileset_uploads"@, counters.tileset_uploads as int));
    assert(f[20] == ("stack_free_bytes"@, info.stack_free_bytes as int));
    assert(f[21] == ("bundle_bytes"@, info.js_bytes - 1));
    assert(f[22] == ("pak_bytes"@, info.pak_bytes as int));
    assert(f[23] == ("arena_capacity_bytes"@, info.arena_capacity_bytes as int));
    assert(f[24] == ("arena_bump_bytes"@, info.arena_bump_bytes as int));
    assert(f[25] == ("arena_tail_free_bytes"@, info.arena_tail_free_bytes as int));
    assert(f[26] == ("arena_init_free_bytes"@, info.arena_init_free_bytes as int));
    assert(f[27] == ("arena_configured_bytes"@, info.arena_configured_bytes as int));
}

} // verus!
