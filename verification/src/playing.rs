//! How timelines play: sample by sample, frame by frame.
use crate::frames::{
    animates, in_order, lemma_lines_over, lemma_lines_played, lemma_tracks_over,
    lemma_tracks_stepped, some_animates, writes, written_from,
};
use crate::playback::{
    alive_lines, batch_end, lemma_batch_end, line_after, line_time, line_value, lines_over,
    plays_on, tracks_over, written, TrackStep,
};
use crate::restyle::new_lines;
use crate::scene::{SceneModel, TimelineInst};
use crate::style::{PropTable, StyleTable, Timeline, TimelineTrack};
use vstd::prelude::*;

verus! {

/// While a timeline plays it shows sample after sample and starts over after
/// each period: `rel` frames after its delay, in whatever period, it shows the
/// sample of the frame of that period.
pub proof fn law_samples_follow_each_other(
    tl: Timeline,
    track: TimelineTrack,
    time: int,
    turn: int,
    k: int,
)
    requires
        0 <= turn,
        0 <= k < tl.period_frames,
        time == tl.delay_frames + turn * tl.period_frames + k,
        tl.iterations == 0 || turn < tl.iterations,
    ensures
        line_value(tl, track, time) == Some(track.samples@[k]),
{
    let p = tl.period_frames as int;
    let rel = time - tl.delay_frames;
    assert(rel >= 0 && rel % p == k) by (nonlinear_arith)
        requires
            rel == turn * p + k,
            0 <= k < p,
            0 <= turn,
    ;
    if tl.iterations != 0 {
        assert(turn * p + k < p * tl.iterations) by (nonlinear_arith)
            requires
                turn + 1 <= tl.iterations,
                0 <= k < p,
        ;
    }
}

/// Before its delay is over a timeline shows its first sample if it fills
/// backwards, and nothing else; after its last period it shows its last one if
/// it fills forwards, and nothing else.
pub proof fn law_fills(tl: Timeline, track: TimelineTrack, time: int)
    ensures
        time < tl.delay_frames ==> line_value(tl, track, time) == (if tl.fill_backwards {
            Some(track.samples@[0])
        } else {
            None
        }),
        tl.iterations != 0 && time >= tl.delay_frames + tl.period_frames * tl.iterations
            ==> line_value(tl, track, time) == (if tl.fill_forwards {
            Some(track.samples@[tl.period_frames as int])
        } else {
            None
        }),
{
    assert(0 <= tl.period_frames * tl.iterations) by (nonlinear_arith)
        requires
            tl.period_frames >= 0,
            tl.iterations >= 0,
    ;
}

/// The only track of a timeline for a property is track `t`.
pub open spec fn only_track(tl: Timeline, t: int, prop: u8) -> bool {
    &&& 0 <= t < tl.tracks@.len()
    &&& forall|k: int|
        #![trigger tl.tracks@[k]]
        0 <= k < tl.tracks@.len() ==> (tl.tracks@[k].prop == prop <==> k == t)
}

proof fn lemma_only_track(tl: Timeline, time: int, t: int, prop: u8, n: int)
    requires
        only_track(tl, t, prop),
        0 <= n <= tl.tracks@.len(),
    ensures
        tracks_over(tl, time, prop, None, n) == (if n <= t {
            None::<Option<u32>>
        } else {
            Some(line_value(tl, tl.tracks@[t], time))
        }),
    decreases n,
{
    if n > 0 {
        lemma_only_track(tl, time, t, prop, n - 1);
        assert(tl.tracks@[n - 1].prop == prop <==> n - 1 == t);
    }
}

proof fn lemma_only_line(
    styles: StyleTable,
    lines: Seq<TimelineInst>,
    i: int,
    j: int,
    e: int,
    t: int,
    prop: u8,
)
    requires
        0 <= i <= j < e <= lines.len(),
        plays_on(styles, lines[j]),
        only_track(styles.anims@[lines[j].anim as int], t, prop),
        forall|k: int|
            #![trigger lines[k]]
            i <= k < e && k != j && plays_on(styles, lines[k]) ==> !animates(
                styles.anims@[lines[k].anim as int],
                prop,
            ),
    ensures
        ({
            let tl = styles.anims@[lines[j].anim as int];
            lines_over(styles, lines, i, e, prop) == Some(
                line_value(tl, tl.tracks@[t], line_time(lines[j])),
            )
        }),
    decreases e - i,
{
    let tl = styles.anims@[lines[j].anim as int];
    if e - 1 > j {
        lemma_only_line(styles, lines, i, j, e - 1, t, prop);
        let inst = lines[e - 1];
        if plays_on(styles, inst) {
            let o = styles.anims@[inst.anim as int];
            assert(!animates(o, prop));
            let below = lines_over(styles, lines, i, e - 1, prop);
            lemma_tracks_over(o, line_time(inst), prop, below, o.tracks@.len() as int);
            assert forall|k: int| #![trigger o.tracks@[k]] 0 <= k < o.tracks@.len() implies o.tracks@[k].prop
                != prop by {}
        }
    } else {
        lemma_lines_over(styles, lines, i, j, prop);
        if some_animates(styles, lines, i, j, prop) {
            let k = choose|k: int|
                i <= k < j && plays_on(styles, #[trigger] lines[k]) && animates(
                    styles.anims@[lines[k].anim as int],
                    prop,
                );
            assert(false);
        }
        lemma_only_track(tl, line_time(lines[j]), t, prop, tl.tracks@.len() as int);
    }
}

/// Only the timeline in place `j` has a track for a property of the node in slot
/// `s`, of those from `i` on.
pub open spec fn sole_writer(
    m: SceneModel,
    styles: StyleTable,
    i: int,
    j: int,
    s: int,
    prop: u8,
) -> bool {
    &&& i <= j < m.timelines.len()
    &&& writes(m.tree, styles, m.timelines[j], s, prop)
    &&& forall|k: int|
        #![trigger m.timelines[k]]
        i <= k < m.timelines.len() && k != j ==> !writes(
            m.tree,
            styles,
            m.timelines[k],
            s,
            prop,
        )
}

proof fn lemma_sole_writer(
    m: SceneModel,
    styles: StyleTable,
    props: PropTable,
    i: int,
    j: int,
    t: int,
    s: int,
    prop: u8,
)
    requires
        in_order(m),
        0 <= i <= j < m.timelines.len(),
        0 <= s < m.nodes.len(),
        sole_writer(m, styles, i, j, s, prop),
        only_track(styles.anims@[m.timelines[j].anim as int], t, prop),
    ensures
        ({
            let a = m.lines_played(styles, props, i);
            let tl = styles.anims@[m.timelines[j].anim as int];
            &&& a.timelines.len() == m.timelines.len()
            &&& a.timelines[j] == line_after(styles, m.timelines[j])
            &&& a.nodes[s].anims[prop as int] == line_value(
                tl,
                tl.tracks@[t],
                line_time(m.timelines[j]),
            )
        }),
    decreases m.timelines.len() - i,
{
    let node = m.timelines[i].node;
    lemma_batch_end(m.timelines, node, i);
    lemma_batch_end(m.timelines, node, i + 1);
    let end = batch_end(m.timelines, node, i);
    if !m.timelines[i].alive {
        lemma_sole_writer(m, styles, props, i + 1, j, t, s, prop);
    } else {
        let b = m.batch_played(styles, props, i, end);
        let at = m.tree.resolves(node as int);
        if at is Some {
            assert(m.nodes[at->0].anims.len() == 256);
            assert forall|k: int|
                #![trigger b.nodes[k]]
                0 <= k < b.nodes.len() implies b.nodes[k].anims.len() == 256
                && b.nodes[k].overrides.len() == 256 by {
                assert(m.nodes[k].anims.len() == 256 && m.nodes[k].overrides.len() == 256);
            }
        }
        assert forall|k: int|
            #![trigger b.timelines[k]]
            end <= k < b.timelines.len() implies b.timelines[k] == m.timelines[k] by {}
        if j < end {
            assert(m.timelines[j].node == node);
            assert(at == Some(s));
            assert forall|k: int|
                #![trigger m.timelines[k]]
                i <= k < end && k != j && plays_on(styles, m.timelines[k]) implies !animates(
                styles.anims@[m.timelines[k].anim as int],
                prop,
            ) by {
                assert(m.timelines[k].node == node);
                assert(!writes(m.tree, styles, m.timelines[k], s, prop));
            }
            lemma_only_line(styles, m.timelines, i, j, end, t, prop);
            assert(b.nodes[s].anims[prop as int] == written(
                styles,
                m.timelines,
                i,
                end,
                m.nodes[s].anims,
            )[prop as int]);
            lemma_lines_played(b, styles, props, end, s, prop);
            assert(!written_from(b, styles, end, s, prop)) by {
                if written_from(b, styles, end, s, prop) {
                    let k = choose|k: int|
                        end <= k < b.timelines.len() && writes(
                            b.tree,
                            styles,
                            #[trigger] b.timelines[k],
                            s,
                            prop,
                        );
                    assert(b.timelines[k] == m.timelines[k]);
                }
            }
            lemma_lines_behind(b, styles, props, end, j);
        } else {
            assert(sole_writer(b, styles, end, j, s, prop)) by {
                assert(b.timelines[j] == m.timelines[j]);
                assert forall|k: int|
                    #![trigger b.timelines[k]]
                    end <= k < b.timelines.len() && k != j implies !writes(
                    b.tree,
                    styles,
                    b.timelines[k],
                    s,
                    prop,
                ) by {
                    assert(!writes(m.tree, styles, m.timelines[k], s, prop));
                }
            }
            lemma_sole_writer(b, styles, props, end, j, t, s, prop);
        }
    }
}

/// Timelines before `i` stay as they are.
proof fn lemma_lines_behind(m: SceneModel, styles: StyleTable, props: PropTable, i: int, j: int)
    requires
        0 <= j < i <= m.timelines.len(),
    ensures
        m.lines_played(styles, props, i).timelines.len() == m.timelines.len(),
        m.lines_played(styles, props, i).timelines[j] == m.timelines[j],
    decreases m.timelines.len() - i,
{
    if i < m.timelines.len() {
        let node = m.timelines[i].node;
        lemma_batch_end(m.timelines, node, i);
        lemma_batch_end(m.timelines, node, i + 1);
        let end = batch_end(m.timelines, node, i);
        if !m.timelines[i].alive {
            lemma_lines_behind(m, styles, props, i + 1, j);
        } else {
            lemma_lines_behind(m.batch_played(styles, props, i, end), styles, props, end, j);
        }
    }
}

/// In a frame a timeline that alone has a track for a property of its node shows
/// the sample of the frame it is at, and goes on by one frame: `frames` after it
/// was started it is `k` frames into a period.
pub proof fn law_timelines_play_frame_by_frame(
    m: SceneModel,
    styles: StyleTable,
    props: PropTable,
    steps: Seq<TrackStep>,
    j: int,
    t: int,
    s: int,
    prop: u8,
    turn: int,
    k: int,
)
    requires
        in_order(m),
        steps.len() == m.tracks.len(),
        0 <= j < m.timelines.len(),
        0 <= s < m.nodes.len(),
        sole_writer(m, styles, 0, j, s, prop),
        m.timelines[j].loop_frames == 0,
        m.timelines[j].clock < u32::MAX,
        ({
            let tl = styles.anims@[m.timelines[j].anim as int];
            &&& only_track(tl, t, prop)
            &&& 0 <= turn && (tl.iterations == 0 || turn < tl.iterations)
            &&& 0 <= k < tl.period_frames
            &&& m.timelines[j].clock == tl.delay_frames + turn * tl.period_frames + k
        }),
    ensures
        ({
            let n = m.ticked(styles, props, steps);
            let tl = styles.anims@[m.timelines[j].anim as int];
            let next = TimelineInst {
                clock: (m.timelines[j].clock + 1) as u32,
                ..m.timelines[j]
            };
            &&& n.nodes[s].anims[prop as int] == Some(tl.tracks@[t].samples@[k])
            &&& n.timelines.contains(next)
        }),
{
    let stepped = m.tracks_stepped(props, steps, steps.len() as int);
    lemma_tracks_stepped(m, props, steps, steps.len() as int);
    assert(sole_writer(stepped, styles, 0, j, s, prop)) by {
        assert forall|i: int|
            #![trigger stepped.timelines[i]]
            0 <= i < stepped.timelines.len() && i != j implies !writes(
            stepped.tree,
            styles,
            stepped.timelines[i],
            s,
            prop,
        ) by {
            assert(!writes(m.tree, styles, m.timelines[i], s, prop));
        }
    }
    lemma_sole_writer(stepped, styles, props, 0, j, t, s, prop);
    let played = stepped.lines_played(styles, props, 0);
    let tl = styles.anims@[m.timelines[j].anim as int];
    law_samples_follow_each_other(tl, tl.tracks@[t], m.timelines[j].clock as int, turn, k);
    crate::frames::lemma_alive_lines(played.timelines);
    assert(played.timelines[j].alive);
}

/// A timeline that loops is, after its loop, where it was at its start.
pub proof fn law_loops_start_over(inst: TimelineInst, turn: int, k: int)
    requires
        0 <= k < inst.loop_frames,
        0 <= turn,
        inst.clock == turn * inst.loop_frames + k,
    ensures
        line_time(inst) == k,
{
    let n = inst.loop_frames as int;
    assert((turn * n + k) % n == k) by (nonlinear_arith)
        requires
            0 <= k < n,
            0 <= turn,
    ;
}

/// Timelines that are started are at frame 0, in the order of their list, and
/// belong to the node.
pub proof fn law_timelines_start_at_zero(
    list: Seq<u16>,
    loop_frames: u16,
    count: nat,
    node: i32,
    k: int,
)
    requires
        forall|i: int| 0 <= i < list.len() ==> (#[trigger] list[i]) < count,
        0 <= k < list.len(),
    ensures
        new_lines(list, loop_frames, count, node).len() == list.len(),
        new_lines(list, loop_frames, count, node)[k] == (TimelineInst {
            alive: true,
            node,
            anim: list[k],
            clock: 0,
            loop_frames,
        }),
    decreases list.len(),
{
    let rest = list.drop_last();
    assert(list[list.len() - 1] < count);
    assert forall|i: int| 0 <= i < rest.len() implies (#[trigger] rest[i]) < count by {
        assert(list[i] < count);
    }
    if rest.len() > 0 {
        law_timelines_start_at_zero(
            rest,
            loop_frames,
            count,
            node,
            if k < rest.len() {
                k
            } else {
                0
            },
        );
    }
}

} // verus!
