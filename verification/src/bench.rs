//! Measurements of a run: phase times of the frames in a window, the checksum
//! of their draw lists, and the report line.
use crate::capture::in_window;
use crate::json::{decimal, hexadecimal, push_decimal, push_hexadecimal};
use vstd::prelude::*;
use vstd::string::StringExecFns;

verus! {

// ---- draw list checksum -------------------------------------------------------------

/// Checksum of no words.
pub const DRAWLIST_CHECKSUM_OFFSET: u64 = 0xcbf2_9ce4_8422_2325;

/// Factor of each checksum step.
pub const DRAWLIST_CHECKSUM_PRIME: u64 = 0x100_0000_01b3;

/// The checksum `h` carried on over `words`: each word is mixed in by
/// exclusive or, then the whole is multiplied modulo 2^64.
pub open spec fn checksum(h: u64, words: Seq<u32>) -> u64
    decreases words.len(),
{
    if words.len() == 0 {
        h
    } else {
        (checksum(h, words.drop_last()) ^ (words.last() as u64)).wrapping_mul(
            DRAWLIST_CHECKSUM_PRIME,
        )
    }
}

/// Carrying a checksum on over one list after another gives that of both lists
/// in one.
pub proof fn law_checksum_of_concatenation(h: u64, a: Seq<u32>, b: Seq<u32>)
    ensures
        checksum(checksum(h, a), b) == checksum(h, a + b),
    decreases b.len(),
{
    if b.len() == 0 {
        assert(a + b =~= a);
    } else {
        law_checksum_of_concatenation(h, a, b.drop_last());
        assert((a + b).drop_last() =~= a + b.drop_last());
    }
}

/// Carries a checksum on over a draw list.
pub fn drawlist_checksum(h: u64, words: &[u32]) -> (r: u64)
    ensures
        r == checksum(h, words@),
{
    let mut sum: u64 = h;
    let mut i: usize = 0;
    proof {
        assert(words@.take(0) =~= Seq::<u32>::empty());
    }
    while i < words.len()
        invariant
            i <= words@.len(),
            sum == checksum(h, words@.take(i as int)),
        decreases words@.len() - i,
    {
        sum = (sum ^ (words[i] as u64)).wrapping_mul(DRAWLIST_CHECKSUM_PRIME);
        proof {
            assert(words@.take(i + 1).drop_last() =~= words@.take(i as int));
        }
        i = i + 1;
    }
    proof {
        assert(words@.take(i as int) =~= words@);
    }
    sum
}

// ---- counters -----------------------------------------------------------------------

/// Counters of slow paths; they stop at the largest number.
pub struct BenchCounters {
    pub fallback_glyph_runs: u32,
    pub tileset_uploads: u32,
}

impl BenchCounters {
    pub fn new() -> (c: BenchCounters)
        ensures
            c.fallback_glyph_runs == 0,
            c.tileset_uploads == 0,
    {
        BenchCounters { fallback_glyph_runs: 0, tileset_uploads: 0 }
    }

    pub fn bench_reset_counters(&mut self)
        ensures
            final(self).fallback_glyph_runs == 0,
            final(self).tileset_uploads == 0,
    {
        self.fallback_glyph_runs = 0;
        self.tileset_uploads = 0;
    }

    pub fn bench_record_fallback_glyph_run(&mut self)
        ensures
            final(self).fallback_glyph_runs == capped32(old(self).fallback_glyph_runs + 1),
            final(self).tileset_uploads == old(self).tileset_uploads,
    {
        self.fallback_glyph_runs = self.fallback_glyph_runs.saturating_add(1);
    }

    pub fn bench_record_tileset_upload(&mut self)
        ensures
            final(self).tileset_uploads == capped32(old(self).tileset_uploads + 1),
            final(self).fallback_glyph_runs == old(self).fallback_glyph_runs,
    {
        self.tileset_uploads = self.tileset_uploads.saturating_add(1);
    }

    pub fn bench_counters(&self) -> (r: (u32, u32))
        ensures
            r == (self.fallback_glyph_runs, self.tileset_uploads),
    {
        (self.fallback_glyph_runs, self.tileset_uploads)
    }
}

/// `v`, or the largest 32-bit number.
pub open spec fn capped32(v: int) -> int {
    if v < u32::MAX {
        v
    } else {
        u32::MAX as int
    }
}

/// `v`, or the largest 64-bit number.
pub open spec fn capped64(v: int) -> int {
    if v < u64::MAX {
        v
    } else {
        u64::MAX as int
    }
}

/// Time from `from` to `to`; none where the clock went back.
pub open spec fn span(from: int, to: int) -> int {
    if from < to {
        to - from
    } else {
        0
    }
}

pub open spec fn larger(a: int, b: int) -> int {
    if a < b {
        b
    } else {
        a
    }
}

// ---- window sums --------------------------------------------------------------------

/// Clock readings of one frame: at its start, after each phase, and how long
/// showing the last frame took.
#[derive(Clone, Copy)]
pub struct FrameTimes {
    pub start: u64,
    pub after_js: u64,
    pub after_jobs: u64,
    pub after_tick: u64,
    pub after_draw: u64,
    pub after_render: u64,
    pub present_us: u64,
}

/// Measurements of one app.
#[derive(Clone, Copy)]
pub struct BenchState {
    pub run_start_us: u64,
    pub eval_begin_us: u64,
    pub eval_end_us: u64,
    pub frame0_complete_us: u64,
    pub frames: u32,
    pub js_sum_us: u64,
    pub jobs_sum_us: u64,
    pub tick_sum_us: u64,
    pub draw_sum_us: u64,
    pub render_sum_us: u64,
    pub work_sum_us: u64,
    pub max_work_us: u64,
    pub gpu_sum_us: u64,
    pub max_gpu_us: u64,
    pub previous_frame_start_us: u64,
    pub frame_interval_sum_us: u64,
    pub max_frame_interval_us: u64,
    pub drawlist_checksum: u64,
}

impl BenchState {
    /// Measurements of an app that starts at `now`.
    pub fn new(now: u64) -> (b: BenchState)
        ensures
            b == (BenchState {
                run_start_us: now,
                eval_begin_us: 0,
                eval_end_us: 0,
                frame0_complete_us: 0,
                frames: 0,
                js_sum_us: 0,
                jobs_sum_us: 0,
                tick_sum_us: 0,
                draw_sum_us: 0,
                render_sum_us: 0,
                work_sum_us: 0,
                max_work_us: 0,
                gpu_sum_us: 0,
                max_gpu_us: 0,
                previous_frame_start_us: 0,
                frame_interval_sum_us: 0,
                max_frame_interval_us: 0,
                drawlist_checksum: DRAWLIST_CHECKSUM_OFFSET,
            }),
    {
        BenchState {
            run_start_us: now,
            eval_begin_us: 0,
            eval_end_us: 0,
            frame0_complete_us: 0,
            frames: 0,
            js_sum_us: 0,
            jobs_sum_us: 0,
            tick_sum_us: 0,
            draw_sum_us: 0,
            render_sum_us: 0,
            work_sum_us: 0,
            max_work_us: 0,
            gpu_sum_us: 0,
            max_gpu_us: 0,
            previous_frame_start_us: 0,
            frame_interval_sum_us: 0,
            max_frame_interval_us: 0,
            drawlist_checksum: DRAWLIST_CHECKSUM_OFFSET,
        }
    }

    /// The measurements with one more frame: each phase time is added to its
    /// sum, without the time that showing the last frame took; from the second
    /// frame on, so is the time since the frame before.
    pub open spec fn with_frame(self, t: FrameTimes) -> BenchState {
        let work = span(t.present_us as int, span(t.start as int, t.after_render as int));
        let render = span(t.present_us as int, span(t.after_draw as int, t.after_render as int));
        let interval = span(self.previous_frame_start_us as int, t.start as int);
        BenchState {
            frames: capped32(self.frames + 1) as u32,
            js_sum_us: capped64(
                self.js_sum_us + span(t.start as int, t.after_js as int),
            ) as u64,
            jobs_sum_us: capped64(
                self.jobs_sum_us + span(t.after_js as int, t.after_jobs as int),
            ) as u64,
            tick_sum_us: capped64(
                self.tick_sum_us + span(t.after_jobs as int, t.after_tick as int),
            ) as u64,
            draw_sum_us: capped64(
                self.draw_sum_us + span(t.after_tick as int, t.after_draw as int),
            ) as u64,
            render_sum_us: capped64(self.render_sum_us + render) as u64,
            work_sum_us: capped64(self.work_sum_us + work) as u64,
            max_work_us: larger(self.max_work_us as int, work) as u64,
            previous_frame_start_us: t.start,
            frame_interval_sum_us: if self.frames > 0 {
                capped64(self.frame_interval_sum_us + interval) as u64
            } else {
                self.frame_interval_sum_us
            },
            max_frame_interval_us: if self.frames > 0 {
                larger(self.max_frame_interval_us as int, interval) as u64
            } else {
                self.max_frame_interval_us
            },
            ..self
        }
    }

    /// Adds the times of a frame if it lies in the window.
    pub fn bench_record_frame(&mut self, frame: u32, start: u32, n: u32, t: FrameTimes)
        ensures
            *final(self) == (if in_window(frame, start, n) {
                old(self).with_frame(t)
            } else {
                *old(self)
            }),
    {
        if !bench_in_window(frame, start, n) {
            return;
        }
        let js_us: u64 = t.after_js.saturating_sub(t.start);
        let jobs_us: u64 = t.after_jobs.saturating_sub(t.after_js);
        let tick_us: u64 = t.after_tick.saturating_sub(t.after_jobs);
        let draw_us: u64 = t.after_draw.saturating_sub(t.after_tick);
        let render_us: u64 = t.after_render.saturating_sub(t.after_draw).saturating_sub(
            t.present_us,
        );
        let work_us: u64 = t.after_render.saturating_sub(t.start).saturating_sub(t.present_us);
        if self.frames > 0 {
            let interval_us: u64 = t.start.saturating_sub(self.previous_frame_start_us);
            self.frame_interval_sum_us = self.frame_interval_sum_us.saturating_add(interval_us);
            if interval_us > self.max_frame_interval_us {
                self.max_frame_interval_us = interval_us;
            }
        }
        self.previous_frame_start_us = t.start;
        self.frames = self.frames.saturating_add(1);
        self.js_sum_us = self.js_sum_us.saturating_add(js_us);
        self.jobs_sum_us = self.jobs_sum_us.saturating_add(jobs_us);
        self.tick_sum_us = self.tick_sum_us.saturating_add(tick_us);
        self.draw_sum_us = self.draw_sum_us.saturating_add(draw_us);
        self.render_sum_us = self.render_sum_us.saturating_add(render_us);
        self.work_sum_us = self.work_sum_us.saturating_add(work_us);
        if work_us > self.max_work_us {
            self.max_work_us = work_us;
        }
    }

    /// Carries the checksum on over the draw list of a frame if it lies in the
    /// window.
    pub fn bench_record_drawlist(&mut self, frame: u32, start: u32, n: u32, words: &[u32])
        ensures
            *final(self) == (if in_window(frame, start, n) {
                BenchState {
                    drawlist_checksum: checksum(old(self).drawlist_checksum, words@),
                    ..*old(self)
                }
            } else {
                *old(self)
            }),
    {
        if bench_in_window(frame, start, n) {
            self.drawlist_checksum = drawlist_checksum(self.drawlist_checksum, words);
        }
    }

    /// Adds the time that the graphics engine was waited for if the frame lies
    /// in the window.
    pub fn bench_record_gpu(&mut self, frame: u32, start: u32, n: u32, gpu_us: u64)
        ensures
            *final(self) == (if in_window(frame, start, n) {
                BenchState {
                    gpu_sum_us: capped64(old(self).gpu_sum_us + gpu_us) as u64,
                    max_gpu_us: larger(old(self).max_gpu_us as int, gpu_us as int) as u64,
                    ..*old(self)
                }
            } else {
                *old(self)
            }),
    {
        if !bench_in_window(frame, start, n) {
            return;
        }
        self.gpu_sum_us = self.gpu_sum_us.saturating_add(gpu_us);
        if gpu_us > self.max_gpu_us {
            self.max_gpu_us = gpu_us;
        }
    }
}

/// Whether a frame is one of the `n` frames from `start` on.
pub fn bench_in_window(frame: u32, start: u32, n: u32) -> (r: bool)
    ensures
        r == in_window(frame, start, n),
{
    frame >= start && frame - start < n
}

// ---- report -------------------------------------------------------------------------

/// What the host adds to a report.
pub struct BenchInfo {
    /// Name of the app.
    pub app: String,
    /// Frames per second.
    pub sim_hz: u32,
    pub stack_free_bytes: i32,
    /// Script with its terminator.
    pub js_bytes: usize,
    pub pak_bytes: usize,
    pub arena_capacity_bytes: usize,
    pub arena_bump_bytes: usize,
    pub arena_tail_free_bytes: usize,
    pub arena_init_free_bytes: usize,
    pub arena_configured_bytes: usize,
}

/// The numbers of a report, by name and in order.
pub open spec fn report_fields(
    b: BenchState,
    info: BenchInfo,
    counters: BenchCounters,
    start: u32,
    n: u32,
) -> Seq<(Seq<char>, int)> {
    seq![
        ("sim_hz"@, info.sim_hz as int),
        ("frames"@, b.frames as int),
        ("window_start"@, start as int),
        ("window_n"@, n as int),
        ("eval_us"@, span(b.eval_begin_us as int, b.eval_end_us as int)),
        ("boot_to_eval_begin_us"@, span(b.run_start_us as int, b.eval_begin_us as int)),
        ("boot_to_frame0_us"@, span(b.run_start_us as int, b.frame0_complete_us as int)),
        ("avg_frame_interval_us"@, if b.frames > 1 {
            b.frame_interval_sum_us as int / (b.frames - 1)
        } else {
            0
        }),
        ("max_frame_interval_us"@, b.max_frame_interval_us as int),
        ("avg_js_us"@, b.js_sum_us as int / b.frames as int),
        ("avg_jobs_us"@, b.jobs_sum_us as int / b.frames as int),
        ("avg_tick_us"@, b.tick_sum_us as int / b.frames as int),
        ("avg_draw_us"@, b.draw_sum_us as int / b.frames as int),
        ("avg_render_us"@, b.render_sum_us as int / b.frames as int),
        ("avg_work_us"@, b.work_sum_us as int / b.frames as int),
        ("max_work_us"@, b.max_work_us as int),
        ("avg_gpu_us"@, b.gpu_sum_us as int / b.frames as int),
        ("max_gpu_us"@, b.max_gpu_us as int),
        ("fallback_glyph_runs"@, counters.fallback_glyph_runs as int),
        ("tileset_uploads"@, counters.tileset_uploads as int),
        ("stack_free_bytes"@, larger(0, info.stack_free_bytes as int)),
        ("bundle_bytes"@, span(1, info.js_bytes as int)),
        ("pak_bytes"@, info.pak_bytes as int),
        ("arena_capacity_bytes"@, info.arena_capacity_bytes as int),
        ("arena_bump_bytes"@, info.arena_bump_bytes as int),
        ("arena_tail_free_bytes"@, info.arena_tail_free_bytes as int),
        ("arena_init_free_bytes"@, info.arena_init_free_bytes as int),
        ("arena_configured_bytes"@, info.arena_configured_bytes as int),
    ]
}

/// The first `k` numbers of a report as text.
pub open spec fn fields_text(fields: Seq<(Seq<char>, int)>, k: int) -> Seq<char>
    decreases k,
{
    if k <= 0 {
        Seq::empty()
    } else {
        fields_text(fields, k - 1) + ",\""@ + fields[k - 1].0 + "\":"@ + decimal(fields[k - 1].1)
    }
}

/// A report: one JSON object on a line of its own.
pub open spec fn report_line(
    b: BenchState,
    info: BenchInfo,
    counters: BenchCounters,
    start: u32,
    n: u32,
) -> Seq<char> {
    let fields = report_fields(b, info, counters, start, n);
    "{\"app\":\""@ + info.app@ + "\""@ + fields_text(fields, fields.len() as int)
        + ",\"drawlist_checksum\":\""@ + hexadecimal(b.drawlist_checksum as int, 16) + "\"}\n"@
}

/// A report is due at the last frame of the window, if any frame was measured.
pub open spec fn report_due(b: BenchState, frame: u32, start: u32, n: u32) -> bool {
    in_window(frame, start, n) && frame - start == n - 1 && b.frames > 0
}

/// Names and values of the numbers gathered.
pub open spec fn field_models(v: Seq<(&'static str, u64)>) -> Seq<(Seq<char>, int)> {
    Seq::new(v.len(), |i: int| (v[i].0@, v[i].1 as int))
}

fn gather_fields(
    b: &BenchState,
    info: &BenchInfo,
    counters: &BenchCounters,
    start: u32,
    n: u32,
) -> (fields: Vec<(&'static str, u64)>)
    requires
        b.frames > 0,
    ensures
        field_models(fields@) == report_fields(*b, *info, *counters, start, n),
{
    let frames: u64 = b.frames as u64;
    let stack: u64 = if info.stack_free_bytes > 0 {
        info.stack_free_bytes as u64
    } else {
        0
    };
    let bundle: u64 = if info.js_bytes > 1 {
        (info.js_bytes - 1) as u64
    } else {
        0
    };
    let mut fields: Vec<(&'static str, u64)> = Vec::new();
    fields.push(("sim_hz", info.sim_hz as u64));
    fields.push(("frames", b.frames as u64));
    fields.push(("window_start", start as u64));
    fields.push(("window_n", n as u64));
    fields.push(("eval_us", b.eval_end_us.saturating_sub(b.eval_begin_us)));
    fields.push(("boot_to_eval_begin_us", b.eval_begin_us.saturating_sub(b.run_start_us)));
    fields.push(("boot_to_frame0_us", b.frame0_complete_us.saturating_sub(b.run_start_us)));
    fields.push(("avg_frame_interval_us", if frames > 1 {
            b.frame_interval_sum_us / (frames - 1)
        } else {
            0
        }));
    fields.push(("max_frame_interval_us", b.max_frame_interval_us));
    fields.push(("avg_js_us", b.js_sum_us / frames));
    fields.push(("avg_jobs_us", b.jobs_sum_us / frames));
    fields.push(("avg_tick_us", b.tick_sum_us / frames));
    fields.push(("avg_draw_us", b.draw_sum_us / frames));
    fields.push(("avg_render_us", b.render_sum_us / frames));
    fields.push(("avg_work_us", b.work_sum_us / frames));
    fields.push(("max_work_us", b.max_work_us));
    fields.push(("avg_gpu_us", b.gpu_sum_us / frames));
    fields.push(("max_gpu_us", b.max_gpu_us));
    fields.push(("fallback_glyph_runs", counters.fallback_glyph_runs as u64));
    fields.push(("tileset_uploads", counters.tileset_uploads as u64));
    fields.push(("stack_free_bytes", stack));
    fields.push(("bundle_bytes", bundle));
    fields.push(("pak_bytes", info.pak_bytes as u64));
    fields.push(("arena_capacity_bytes", info.arena_capacity_bytes as u64));
    fields.push(("arena_bump_bytes", info.arena_bump_bytes as u64));
    fields.push(("arena_tail_free_bytes", info.arena_tail_free_bytes as u64));
    fields.push(("arena_init_free_bytes", info.arena_init_free_bytes as u64));
    fields.push(("arena_configured_bytes", info.arena_configured_bytes as u64));
    proof {
        assert(field_models(fields@) =~= report_fields(*b, *info, *counters, start, n));
    }
    fields
}

/// The report line, when one is due at this frame.
pub fn bench_maybe_flush(
    b: &BenchState,
    info: &BenchInfo,
    counters: &BenchCounters,
    frame: u32,
    start: u32,
    n: u32,
) -> (line: Option<String>)
    ensures
        line is Some <==> report_due(*b, frame, start, n),
        line is Some ==> line->0@ == report_line(*b, *info, *counters, start, n),
{
    if !bench_in_window(frame, start, n) || frame - start != n - 1 || b.frames == 0 {
        return None;
    }
    let fields = gather_fields(b, info, counters, start, n);
    let ghost models = report_fields(*b, *info, *counters, start, n);
    let mut out: String = String::from_str("{\"app\":\"");
    out.append(info.app.as_str());
    out.append("\"");
    let ghost head = out@;
    let mut k: usize = 0;
    proof {
        assert(head + Seq::<char>::empty() =~= head);
    }
    while k < fields.len()
        invariant
            k <= fields@.len(),
            models == field_models(fields@),
            out@ == head + fields_text(models, k as int),
        decreases fields@.len() - k,
    {
        let ghost before = out@;
        out.append(",\"");
        out.append(fields[k].0);
        out.append("\":");
        push_decimal(&mut out, fields[k].1);
        proof {
            assert(models[k as int] == (fields@[k as int].0@, fields@[k as int].1 as int));
            assert(out@ =~= head + fields_text(models, k + 1));
        }
        k = k + 1;
    }
    out.append(",\"drawlist_checksum\":\"");
    push_hexadecimal(&mut out, b.drawlist_checksum, 16);
    out.append("\"}\n");
    proof {
        assert(out@ =~= report_line(*b, *info, *counters, start, n));
    }
    Some(out)
}

/// One word is mixed into a checksum by exclusive or, and the result multiplied
/// by a prime; no words leave it as it is.
pub proof fn law_checksum_of_a_word(h: u64, word: u32)
    ensures
        checksum(h, Seq::empty()) == h,
        checksum(h, seq![word]) == (h ^ (word as u64)).wrapping_mul(0x100_0000_01b3),
        DRAWLIST_CHECKSUM_OFFSET == 0xcbf2_9ce4_8422_2325,
{
    let one = seq![word];
    assert(one.drop_last() =~= Seq::<u32>::empty());
    assert(checksum(h, one.drop_last()) == h);
    assert(one.last() == word);
}

/// A report is due at the last frame of the window and at no other.
pub proof fn law_reports_are_due_once(b: BenchState, frame: u32, start: u32, n: u32)
    ensures
        report_due(b, frame, start, n) <==> b.frames > 0 && n > 0 && frame == start + n - 1,
{
}

} // verus!
