//! Scripted input and frame dumps for deterministic runs.
use crate::json::{hex_digit, hex_of, lemma_hex_injective};
use vstd::prelude::*;
use vstd::string::StringExecFns;

verus! {

pub open spec fn is_blank(c: u8) -> bool {
    c == 0x20 || c == 0x09
}

/// The first position from `i` on, before `end`, that holds no blank; `end`
/// where there is none.
pub open spec fn skip_blanks(s: Seq<u8>, i: int, end: int) -> int
    decreases end - i,
{
    if i < end && is_blank(s[i]) {
        skip_blanks(s, i + 1, end)
    } else {
        i
    }
}

/// The first position from `i` on, before `end`, that holds a blank; `end`
/// where there is none.
pub open spec fn skip_token(s: Seq<u8>, i: int, end: int) -> int
    decreases end - i,
{
    if i < end && !is_blank(s[i]) {
        skip_token(s, i + 1, end)
    } else {
        i
    }
}

/// The value of a digit, in base sixteen with either case of letters.
pub open spec fn digit_of(c: u8, hex: bool) -> Option<int> {
    if 0x30 <= c <= 0x39 {
        Some(c - 0x30)
    } else if hex && 0x61 <= c <= 0x66 {
        Some(c - 0x61 + 10)
    } else if hex && 0x41 <= c <= 0x46 {
        Some(c - 0x41 + 10)
    } else {
        None
    }
}

/// The value of the digits `from..to`; `None` when one of them is no digit.
pub open spec fn digits_of(s: Seq<u8>, from: int, to: int, hex: bool) -> Option<int>
    decreases to - from,
{
    if from >= to {
        Some(0)
    } else {
        match (digits_of(s, from, to - 1, hex), digit_of(s[to - 1], hex)) {
            (Some(v), Some(d)) => Some(v * (if hex {
                16int
            } else {
                10
            }) + d),
            _ => None,
        }
    }
}

/// A prefix `0x` or `0X` stands at `p`, before `end`.
pub open spec fn hex_prefix(s: Seq<u8>, p: int, end: int) -> bool {
    p + 1 < end && s[p] == 0x30 && (s[p + 1] == 0x78 || s[p + 1] == 0x58)
}

/// The number that `i..end` holds: blanks, then digits up to a blank or the
/// end, in base sixteen behind a prefix. Numbers past 32 bits count as the
/// largest one. `None` without digits and where something else stands there.
pub open spec fn number_in(s: Seq<u8>, i: int, end: int) -> Option<int> {
    let p = skip_blanks(s, i, end);
    let hex = hex_prefix(s, p, end);
    let from = if hex {
        p + 2
    } else {
        p
    };
    let to = skip_token(s, from, end);
    if p >= end || from >= to {
        None
    } else {
        match digits_of(s, from, to, hex) {
            Some(v) => Some(if v < u32::MAX {
                v
            } else {
                u32::MAX as int
            }),
            None => None,
        }
    }
}

proof fn lemma_digits_fail(s: Seq<u8>, from: int, at: int, to: int, hex: bool)
    requires
        from <= at < to,
        digit_of(s[at], hex) is None,
    ensures
        digits_of(s, from, to, hex) is None,
    decreases to - at,
{
    if at < to - 1 {
        lemma_digits_fail(s, from, at, to - 1, hex);
    }
}

proof fn lemma_skip_token(s: Seq<u8>, i: int, end: int)
    requires
        i <= end,
    ensures
        i <= skip_token(s, i, end) <= end,
    decreases end - i,
{
    if i < end && !is_blank(s[i]) {
        lemma_skip_token(s, i + 1, end);
    }
}

proof fn lemma_digits_nonneg(s: Seq<u8>, from: int, to: int, hex: bool)
    ensures
        digits_of(s, from, to, hex) matches Some(v) ==> v >= 0,
    decreases to - from,
{
    if from < to {
        lemma_digits_nonneg(s, from, to - 1, hex);
    }
}

fn digit(c: u8, hex: bool) -> (r: Option<u32>)
    ensures
        r is Some <==> digit_of(c, hex) is Some,
        r is Some ==> r->0 == digit_of(c, hex)->0 && r->0 < 16,
{
    if c >= 0x30 && c <= 0x39 {
        Some((c - 0x30) as u32)
    } else if hex && c >= 0x61 && c <= 0x66 {
        Some((c - 0x61) as u32 + 10)
    } else if hex && c >= 0x41 && c <= 0x46 {
        Some((c - 0x41) as u32 + 10)
    } else {
        None
    }
}

/// `v` or the largest 32-bit number, whichever is less.
pub open spec fn capped(v: int) -> int {
    if v < u32::MAX {
        v
    } else {
        u32::MAX as int
    }
}

/// Reads the number that `i..end` holds.
pub fn parse_capture_u32(s: &[u8], i: usize, end: usize) -> (r: Option<u32>)
    requires
        i <= end <= s@.len(),
    ensures
        r is Some <==> number_in(s@, i as int, end as int) is Some,
        r is Some ==> r->0 == number_in(s@, i as int, end as int)->0,
{
    let mut p: usize = i;
    while p < end && (s[p] == 0x20 || s[p] == 0x09)
        invariant
            i <= p <= end <= s@.len(),
            skip_blanks(s@, p as int, end as int) == skip_blanks(s@, i as int, end as int),
        decreases end - p,
    {
        p = p + 1;
    }
    if p >= end {
        return None;
    }
    let hex: bool = end - p > 1 && s[p] == 0x30 && (s[p + 1] == 0x78 || s[p + 1] == 0x58);
    let from: usize = if hex {
        p + 2
    } else {
        p
    };
    let base: u64 = if hex {
        16
    } else {
        10
    };
    let ghost to = skip_token(s@, from as int, end as int);
    proof {
        lemma_skip_token(s@, from as int, end as int);
    }
    let mut out: u64 = 0;
    let mut q: usize = from;
    while q < end && s[q] != 0x20 && s[q] != 0x09
        invariant
            i <= p < end,
            p == skip_blanks(s@, i as int, end as int),
            hex == hex_prefix(s@, p as int, end as int),
            from == (if hex {
                p + 2
            } else {
                p as int
            }),
            to == skip_token(s@, from as int, end as int),
            from <= q <= end <= s@.len(),
            base == (if hex {
                16int
            } else {
                10
            }),
            skip_token(s@, q as int, end as int) == to,
            q <= to <= end,
            digits_of(s@, from as int, q as int, hex) is Some,
            out <= u32::MAX,
            out == capped(digits_of(s@, from as int, q as int, hex)->0),
        decreases end - q,
    {
        proof {
            lemma_skip_token(s@, q + 1, end as int);
            lemma_digits_nonneg(s@, from as int, q as int, hex);
        }
        match digit(s[q], hex) {
            Some(d) => {
                let wide: u64 = out * base + d as u64;
                out = if wide < 0xffff_ffff {
                    wide
                } else {
                    0xffff_ffff
                };
            },
            None => {
                proof {
                    lemma_digits_fail(s@, from as int, q as int, to, hex);
                }
                return None;
            },
        }
        q = q + 1;
    }
    if q > from {
        Some(out as u32)
    } else {
        None
    }
}

/// Reads a configured number, falling back where there is none.
pub fn capture_env_u32(s: &[u8], default: u32) -> (r: u32)
    ensures
        r == (match number_in(s@, 0, s@.len() as int) {
            Some(v) => v,
            None => default as int,
        }),
{
    match parse_capture_u32(s, 0, s.len()) {
        Some(v) => v,
        None => default,
    }
}

// ---- scripted input -----------------------------------------------------------------

pub open spec fn is_separator(c: u8) -> bool {
    c == 0x2c || c == 0x3b
}

/// The first position from `i` on that holds neither a separator nor a blank.
pub open spec fn skip_gap(s: Seq<u8>, i: int) -> int
    decreases s.len() - i,
{
    if i < s.len() && (is_separator(s[i]) || is_blank(s[i])) {
        skip_gap(s, i + 1)
    } else {
        i
    }
}

/// The first position from `i` on that holds a separator, or a colon where
/// `colon` asks for it.
pub open spec fn skip_field(s: Seq<u8>, i: int, colon: bool) -> int
    decreases s.len() - i,
{
    if i < s.len() && !is_separator(s[i]) && !(colon && s[i] == 0x3a) {
        skip_field(s, i + 1, colon)
    } else {
        i
    }
}

/// A threshold of the script: from this frame on, this mask.
pub struct Threshold {
    pub frame: int,
    pub mask: int,
}

/// The threshold in force: the one with the latest frame that is not past
/// `count`, and of equal ones the last.
pub open spec fn pick(best: Option<Threshold>, t: Threshold, count: int) -> Option<Threshold> {
    if t.frame <= count && (best matches Some(b) ==> t.frame >= b.frame) {
        Some(t)
    } else {
        best
    }
}

/// The thresholds `frame:mask` from position `i` on, in order. Those whose
/// numbers do not read are left out; a part without a colon ends the script.
pub open spec fn thresholds(s: Seq<u8>, i: int) -> Seq<Threshold>
    decreases s.len() - i,
{
    let a = skip_gap(s, i);
    let b = skip_field(s, a, true);
    let m = skip_field(s, b + 1, false);
    if i >= s.len() || b >= s.len() || s[b] != 0x3a || m <= i || m > s.len() {
        Seq::empty()
    } else {
        let rest = thresholds(s, m);
        match (number_in(s, a, b), number_in(s, b + 1, m)) {
            (Some(frame), Some(mask)) => seq![Threshold { frame, mask }] + rest,
            _ => rest,
        }
    }
}

/// The threshold in force after all of `ts`, when `best` was before them.
pub open spec fn in_force(best: Option<Threshold>, ts: Seq<Threshold>, count: int) -> Option<
    Threshold,
>
    decreases ts.len(),
{
    if ts.len() == 0 {
        best
    } else {
        in_force(pick(best, ts[0], count), ts.drop_first(), count)
    }
}

/// The threshold in force is one of the script, not past the frame, and no
/// other that is not past the frame is later.
pub proof fn law_threshold_in_force(best: Option<Threshold>, ts: Seq<Threshold>, count: int)
    requires
        best matches Some(b) ==> b.frame <= count,
    ensures
        in_force(best, ts, count) matches Some(t) ==> {
            &&& t.frame <= count
            &&& best == Some(t) || ts.contains(t)
            &&& best matches Some(b) ==> b.frame <= t.frame
            &&& forall|i: int| 0 <= i < ts.len() && #[trigger] ts[i].frame <= count ==> ts[i].frame
                <= t.frame
        },
        in_force(best, ts, count) is None ==> best is None && forall|i: int|
            0 <= i < ts.len() ==> #[trigger] ts[i].frame > count,
    decreases ts.len(),
{
    if ts.len() > 0 {
        let next = pick(best, ts[0], count);
        let rest = ts.drop_first();
        law_threshold_in_force(next, rest, count);
        assert forall|i: int| 0 < i < ts.len() implies #[trigger] ts[i] == rest[i - 1] by {}
        if in_force(best, ts, count) is Some {
            let t = in_force(best, ts, count)->0;
            if rest.contains(t) {
                let j = choose|j: int| 0 <= j < rest.len() && rest[j] == t;
                assert(ts[j + 1] == t);
            } else if best != Some(t) {
                assert(ts[0] == t);
            }
        }
    }
}

proof fn lemma_skip_gap(s: Seq<u8>, i: int)
    requires
        0 <= i <= s.len(),
    ensures
        i <= skip_gap(s, i) <= s.len(),
    decreases s.len() - i,
{
    if i < s.len() && (is_separator(s[i]) || is_blank(s[i])) {
        lemma_skip_gap(s, i + 1);
    }
}

proof fn lemma_skip_field(s: Seq<u8>, i: int, colon: bool)
    requires
        0 <= i <= s.len(),
    ensures
        i <= skip_field(s, i, colon) <= s.len(),
    decreases s.len() - i,
{
    if i < s.len() && !is_separator(s[i]) && !(colon && s[i] == 0x3a) {
        lemma_skip_field(s, i + 1, colon);
    }
}

fn find_field_end(s: &[u8], i: usize, colon: bool) -> (r: usize)
    requires
        i <= s@.len(),
    ensures
        r == skip_field(s@, i as int, colon),
        i <= r <= s@.len(),
{
    let mut p: usize = i;
    while p < s.len() && s[p] != 0x2c && s[p] != 0x3b && !(colon && s[p] == 0x3a)
        invariant
            i <= p <= s@.len(),
            skip_field(s@, p as int, colon) == skip_field(s@, i as int, colon),
        decreases s@.len() - p,
    {
        p = p + 1;
    }
    p
}

/// The mask in force in a script of thresholds; `fallback` before the first
/// one.
pub open spec fn scripted_mask(s: Seq<u8>, frame_count: int, fallback: int) -> int {
    match in_force(None, thresholds(s, 0), frame_count) {
        Some(t) => t.mask,
        None => fallback,
    }
}

/// The button mask that an input script gives for a frame. `0:0,20:0x40,24:0`
/// presses one button from frame 20 to frame 24.
pub fn capture_input_mask(s: &[u8], frame_count: u32, fallback: u32) -> (mask: u32)
    ensures
        mask == scripted_mask(s@, frame_count as int, fallback as int),
{
    let mut i: usize = 0;
    let mut best_frame: Option<u32> = None;
    let mut best_mask: u32 = fallback;
    let ghost mut best: Option<Threshold> = None;
    let ghost total = in_force(None, thresholds(s@, 0), frame_count as int);
    let mut more: bool = true;
    while more
        invariant
            i <= s@.len(),
            best is Some <==> best_frame is Some,
            best is Some ==> best->0.frame == best_frame->0 && best->0.mask == best_mask,
            best is None ==> best_mask == fallback,
            total == in_force(None, thresholds(s@, 0), frame_count as int),
            more ==> in_force(best, thresholds(s@, i as int), frame_count as int) == total,
            !more ==> best == total,
        decreases s@.len() - i + (if more {
            1int
        } else {
            0
        }),
    {
        let ghost from = i as int;
        proof {
            lemma_skip_gap(s@, from);
        }
        if i >= s.len() {
            more = false;
        } else {
            let start: usize = i;
            let mut a: usize = i;
            while a < s.len() && (s[a] == 0x2c || s[a] == 0x3b || s[a] == 0x20 || s[a] == 0x09)
                invariant
                    start <= a <= s@.len(),
                    skip_gap(s@, a as int) == skip_gap(s@, start as int),
                decreases s@.len() - a,
            {
                a = a + 1;
            }
            let b: usize = find_field_end(s, a, true);
            if b >= s.len() || s[b] != 0x3a {
                more = false;
            } else {
                let m: usize = find_field_end(s, b + 1, false);
                let frame = parse_capture_u32(s, a, b);
                let mask = parse_capture_u32(s, b + 1, m);
                let ghost rest = thresholds(s@, m as int);
                match (frame, mask) {
                    (Some(f), Some(v)) => {
                        let later: bool = match best_frame {
                            Some(best) => f >= best,
                            None => true,
                        };
                        proof {
                            let t = Threshold { frame: f as int, mask: v as int };
                            let ts = thresholds(s@, from);
                            assert(ts =~= seq![t] + rest);
                            assert(ts.drop_first() =~= rest);
                            best = pick(best, t, frame_count as int);
                        }
                        if f <= frame_count && later {
                            best_frame = Some(f);
                            best_mask = v;
                        }
                    },
                    _ => {},
                }
                i = m;
            }
        }
    }
    best_mask
}

// ---- frame dumps ----------------------------------------------------------------------

/// What to do with a frame that was shown.
pub enum Dump {
    /// Nothing.
    Skip,
    /// End the run.
    Exit,
    /// Write it to `name`, in a new directory before the `first` one; the
    /// `last` one ends the run.
    Write { first: bool, name: String, last: bool },
}

/// The name of dump `idx`, with its last four digits.
pub open spec fn dump_path(idx: int) -> Seq<char> {
    "ms0:/dc_cap/f"@ + seq![
        hex_of(idx / 1000 % 10),
        hex_of(idx / 100 % 10),
        hex_of(idx / 10 % 10),
        hex_of(idx % 10),
    ] + ".raw"@
}

/// Names of different dumps differ while four digits tell them apart.
pub proof fn law_dump_paths_differ(a: int, b: int)
    requires
        0 <= a < 10000,
        0 <= b < 10000,
        dump_path(a) == dump_path(b),
    ensures
        a == b,
{
    let n = "ms0:/dc_cap/f"@.len() as int;
    let (p, q) = (dump_path(a), dump_path(b));
    assert(p[n] == hex_of(a / 1000 % 10) && q[n] == hex_of(b / 1000 % 10));
    assert(p[n + 1] == hex_of(a / 100 % 10) && q[n + 1] == hex_of(b / 100 % 10));
    assert(p[n + 2] == hex_of(a / 10 % 10) && q[n + 2] == hex_of(b / 10 % 10));
    assert(p[n + 3] == hex_of(a % 10) && q[n + 3] == hex_of(b % 10));
    assert(a / 1000 % 10 == b / 1000 % 10 && a / 100 % 10 == b / 100 % 10 && a / 10 % 10 == b / 10
        % 10 && a % 10 == b % 10) by {
        lemma_hex_injective(a / 1000 % 10, b / 1000 % 10);
        lemma_hex_injective(a / 100 % 10, b / 100 % 10);
        lemma_hex_injective(a / 10 % 10, b / 10 % 10);
        lemma_hex_injective(a % 10, b % 10);
    }
    lemma_four_digits(a);
    lemma_four_digits(b);
}

proof fn lemma_four_digits(a: int)
    requires
        0 <= a < 10000,
    ensures
        a == 1000 * (a / 1000 % 10) + 100 * (a / 100 % 10) + 10 * (a / 10 % 10) + a % 10,
{
    let q1 = a / 10;
    let q2 = q1 / 10;
    let q3 = q2 / 10;
    assert(q2 == a / 100) by (nonlinear_arith)
        requires
            q1 == a / 10,
            q2 == q1 / 10,
    ;
    assert(q3 == a / 1000) by (nonlinear_arith)
        requires
            q2 == a / 100,
            q3 == q2 / 10,
    ;
    assert(q3 % 10 == q3);
}

/// The name of dump `idx`.
pub fn dump_name(idx: u32) -> (r: String)
    ensures
        r@ == dump_path(idx as int),
{
    let mut r: String = String::from_str("ms0:/dc_cap/f");
    r.push(hex_digit(idx / 1000 % 10));
    r.push(hex_digit(idx / 100 % 10));
    r.push(hex_digit(idx / 10 % 10));
    r.push(hex_digit(idx % 10));
    r.append(".raw");
    proof {
        assert(r@ =~= dump_path(idx as int));
    }
    r
}

/// `frame` is one of the `n` frames from `start` on.
pub open spec fn in_window(frame: u32, start: u32, n: u32) -> bool {
    start <= frame && frame - start < n
}

/// What to do with a shown frame, for a window of `n` frames from `start` on.
/// `dump` says whether frames are written at all; the last one of the window
/// ends the run either way.
pub fn cap_dump_frame(frame: u32, start: u32, n: u32, dump: bool) -> (d: Dump)
    ensures
        !in_window(frame, start, n) ==> d is Skip,
        in_window(frame, start, n) && !dump ==> if frame - start == n - 1 {
            d is Exit
        } else {
            d is Skip
        },
        in_window(frame, start, n) && dump ==> (d matches Dump::Write { first, name, last } && first
            == (frame == start) && name@ == dump_path(frame - start) && last == (frame - start == n
            - 1)),
{
    if frame < start || frame - start >= n {
        return Dump::Skip;
    }
    let idx: u32 = frame - start;
    if !dump {
        if idx == n - 1 {
            return Dump::Exit;
        }
        return Dump::Skip;
    }
    Dump::Write { first: idx == 0, name: dump_name(idx), last: idx == n - 1 }
}

/// A window holds `n` frames: the one it starts with and those after it.
pub proof fn law_window_holds_its_frames(start: u32, n: u32, k: int)
    requires
        0 <= start + k <= u32::MAX,
    ensures
        in_window((start + k) as u32, start, n) <==> 0 <= k < n,
{
}

proof fn lemma_threshold_stays(best: Threshold, ts: Seq<Threshold>, count: int)
    requires
        forall|j: int| 0 <= j < ts.len() && #[trigger] ts[j].frame <= count ==> ts[j].frame < best.frame,
    ensures
        in_force(Some(best), ts, count) == Some(best),
    decreases ts.len(),
{
    if ts.len() > 0 {
        let rest = ts.drop_first();
        assert(pick(Some(best), ts[0], count) == Some(best));
        assert forall|j: int| 0 <= j < rest.len() && #[trigger] rest[j].frame <= count implies rest[j].frame
            < best.frame by {
            assert(rest[j] == ts[j + 1]);
        }
        lemma_threshold_stays(best, rest, count);
    }
}

/// Of thresholds for the same frame the last one counts.
pub proof fn law_last_threshold_counts(
    best: Option<Threshold>,
    ts: Seq<Threshold>,
    count: int,
    i: int,
)
    requires
        0 <= i < ts.len(),
        ts[i].frame <= count,
        best matches Some(b) ==> b.frame <= ts[i].frame,
        forall|j: int| 0 <= j < i && #[trigger] ts[j].frame <= count ==> ts[j].frame <= ts[i].frame,
        forall|j: int| i < j < ts.len() && #[trigger] ts[j].frame <= count ==> ts[j].frame
            < ts[i].frame,
    ensures
        in_force(best, ts, count) == Some(ts[i]),
    decreases ts.len(),
{
    let rest = ts.drop_first();
    assert forall|j: int| 0 <= j < rest.len() implies #[trigger] rest[j] == ts[j + 1] by {}
    if i == 0 {
        assert(pick(best, ts[0], count) == Some(ts[0]));
        lemma_threshold_stays(ts[0], rest, count);
    } else {
        assert(ts[0].frame <= count ==> ts[0].frame <= ts[i].frame);
        law_last_threshold_counts(pick(best, ts[0], count), rest, count, i - 1);
    }
}

proof fn lemma_field_ends(s: Seq<u8>, i: int, end: int, colon: bool)
    requires
        0 <= i <= end <= s.len(),
        forall|k: int|
            i <= k < end ==> (#[trigger] s[k]) != 0x2c && s[k] != 0x3b && (colon ==> s[k] != 0x3a),
        end == s.len() || s[end] == 0x2c || s[end] == 0x3b || (colon && s[end] == 0x3a),
    ensures
        skip_field(s, i, colon) == end,
    decreases end - i,
{
    if i < end {
        lemma_field_ends(s, i + 1, end, colon);
    }
}

/// A part of a script: a frame up to the colon and a mask up to the next comma
/// or semicolon, or to the end.
pub proof fn law_script_part(s: Seq<u8>, i: int, b: int, m: int)
    requires
        0 <= i <= b < m <= s.len(),
        s[i] != 0x20 && s[i] != 0x09,
        s[b] == 0x3a,
        forall|k: int| i <= k < b ==> (#[trigger] s[k]) != 0x2c && s[k] != 0x3b && s[k] != 0x3a,
        forall|k: int| b < k < m ==> (#[trigger] s[k]) != 0x2c && s[k] != 0x3b,
        m == s.len() || s[m] == 0x2c || s[m] == 0x3b,
    ensures
        number_in(s, i, b) is Some && number_in(s, b + 1, m) is Some ==> thresholds(s, i) == seq![
            Threshold { frame: number_in(s, i, b)->0, mask: number_in(s, b + 1, m)->0 },
        ] + thresholds(s, m),
        number_in(s, i, b) is None || number_in(s, b + 1, m) is None ==> thresholds(s, i)
            == thresholds(s, m),
{
    assert(skip_gap(s, i) == i);
    lemma_field_ends(s, i, b, true);
    lemma_field_ends(s, b + 1, m, false);
}

/// Commas, semicolons, spaces and tabs between the parts of a script do not count.
pub proof fn law_script_gap(s: Seq<u8>, i: int)
    requires
        0 <= i < s.len(),
        s[i] == 0x2c || s[i] == 0x3b || s[i] == 0x20 || s[i] == 0x09,
    ensures
        thresholds(s, i) == thresholds(s, i + 1),
{
    lemma_skip_gap(s, i + 1);
    let a = skip_gap(s, i + 1);
    lemma_skip_field(s, a, true);
    let b = skip_field(s, a, true);
    if b < s.len() {
        lemma_skip_field(s, b + 1, false);
    }
}

} // verus!
