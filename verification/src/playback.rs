//! One frame of all that moves by itself: tracks and timelines.
use crate::anim::ended;
use crate::scene::{Node, NodeModel, Scene, SceneModel, TimelineInst};
use crate::style::{PropTable, StyleTable, Timeline, TimelineTrack};
use vstd::prelude::*;

verus! {

// ---- tracks -----------------------------------------------------------------------------

/// Where a track is after a frame.
#[derive(Clone, Copy)]
pub struct TrackStep {
    pub value: u32,
    pub done: bool,
}

impl SceneModel {
    /// The scene after the track in place `i` moved on. When it is done, a
    /// transition lets the style show through, and an animation of a script
    /// leaves its target on the node.
    pub open spec fn track_stepped(self, props: PropTable, i: int, step: TrackStep) -> SceneModel {
        let t = self.tracks[i];
        let over = SceneModel { tracks: self.tracks.update(i, ended(t)), ..self };
        if !t.alive {
            self
        } else {
            match self.tree.resolves(t.node as int) {
                None => over,
                Some(s) => {
                    let n = self.nodes[s];
                    let p = t.prop as int;
                    (if step.done {
                        over.with_node(
                            s,
                            NodeModel {
                                anims: n.anims.update(p, None),
                                overrides: if t.explicit {
                                    n.overrides.update(p, Some(t.to))
                                } else {
                                    n.overrides
                                },
                                ..n
                            },
                        )
                    } else {
                        self.with_node(
                            s,
                            NodeModel { anims: n.anims.update(p, Some(step.value)), ..n },
                        )
                    }).restyled_if(s, props.moves_boxes(t.prop))
                },
            }
        }
    }

    /// The scene after the first `n` tracks moved on.
    pub open spec fn tracks_stepped(self, props: PropTable, steps: Seq<TrackStep>, n: int) -> SceneModel
        decreases n,
    {
        if n <= 0 {
            self
        } else {
            self.tracks_stepped(props, steps, n - 1).track_stepped(props, n - 1, steps[n - 1])
        }
    }
}

impl Scene {
    fn step_track(&mut self, i: u32, step: TrackStep)
        requires
            old(self).wf(),
            i < old(self).anims.tracks@.len(),
        ensures
            final(self).wf(),
            final(self).same_tables(*old(self)),
            final(self)@ == old(self)@.track_stepped(old(self).props, i as int, step),
    {
        let ghost m = self@;
        let t = self.anims.tracks[i as usize];
        if !t.alive {
            return;
        }
        let slot: u32 = match self.tree.resolve(t.node) {
            Some(s) => s,
            None => {
                self.anims.kill(i);
                return;
            },
        };
        let s: usize = slot as usize;
        if step.done {
            self.nodes[s].remove_anim(t.prop);
            if t.explicit {
                self.nodes[s].put_override(t.prop, t.to);
            }
            self.anims.kill(i);
        } else {
            self.nodes[s].put_anim(t.prop, step.value);
        }
        if self.props.dirtying[t.prop as usize] {
            self.layouts.mark_layout_style(slot);
        }
        proof {
            let want = m.track_stepped(self.props, i as int, step);
            assert(self@.nodes =~= want.nodes);
            assert(self@ =~= want);
        }
    }

    /// Moves all tracks on by one frame; `steps` holds where each of them is
    /// then.
    fn step_tracks(&mut self, steps: &[TrackStep])
        requires
            old(self).wf(),
            steps@.len() == old(self).anims.tracks@.len(),
        ensures
            final(self).wf(),
            final(self).same_tables(*old(self)),
            final(self)@ == old(self)@.tracks_stepped(
                old(self).props,
                steps@,
                steps@.len() as int,
            ),
    {
        let ghost m = self@;
        let n: usize = self.anims.tracks.len();
        let mut i: usize = 0;
        while i < n
            invariant
                i <= n,
                n == steps@.len(),
                n == self.anims.tracks@.len(),
                n <= 0x10000,
                self.wf(),
                self.same_tables(*old(self)),
                self@ == m.tracks_stepped(self.props, steps@, i as int),
            decreases n - i,
        {
            self.step_track(i as u32, steps[i]);
            i = i + 1;
        }
    }
}

// ---- timelines --------------------------------------------------------------------------

/// The frame of an animation's own time that a clock is at.
pub open spec fn line_time(inst: TimelineInst) -> int {
    if inst.loop_frames > 0 {
        inst.clock as int % inst.loop_frames as int
    } else {
        inst.clock as int
    }
}

/// What a timeline writes to the property of one of its tracks: nothing before
/// its delay is over unless it fills backwards, nothing after its last period
/// unless it fills forwards.
pub open spec fn line_value(tl: Timeline, track: TimelineTrack, time: int) -> Option<u32> {
    let rel = time - tl.delay_frames;
    if rel < 0 {
        if tl.fill_backwards {
            Some(track.samples@[0])
        } else {
            None
        }
    } else if tl.iterations != 0 && rel >= tl.period_frames * tl.iterations {
        if tl.fill_forwards {
            Some(track.samples@[tl.period_frames as int])
        } else {
            None
        }
    } else {
        Some(track.samples@[rel % (tl.period_frames as int)])
    }
}

/// A value on top of what earlier timelines wrote: it counts only if there is
/// one.
pub open spec fn over(below: Option<Option<u32>>, value: Option<u32>) -> Option<Option<u32>> {
    match below {
        None => Some(value),
        Some(b) => Some(
            if value is Some {
                value
            } else {
                b
            },
        ),
    }
}

/// What the first `n` tracks of a timeline make of a property, over `below`.
pub open spec fn tracks_over(tl: Timeline, time: int, prop: u8, below: Option<Option<u32>>, n: int) -> Option<
    Option<u32>,
>
    decreases n,
{
    if n <= 0 {
        below
    } else {
        let b = tracks_over(tl, time, prop, below, n - 1);
        if tl.tracks@[n - 1].prop == prop {
            over(b, line_value(tl, tl.tracks@[n - 1], time))
        } else {
            b
        }
    }
}

/// A timeline plays.
pub open spec fn plays_on(styles: StyleTable, inst: TimelineInst) -> bool {
    inst.alive && inst.anim < styles.anims@.len()
}

/// What the timelines from `i` up to `j` make of a property: nothing, a value,
/// or that it has none.
pub open spec fn lines_over(styles: StyleTable, lines: Seq<TimelineInst>, i: int, j: int, prop: u8) -> Option<
    Option<u32>,
>
    decreases j - i,
{
    if j <= i {
        None
    } else {
        let b = lines_over(styles, lines, i, j - 1, prop);
        if plays_on(styles, lines[j - 1]) {
            let tl = styles.anims@[lines[j - 1].anim as int];
            tracks_over(tl, line_time(lines[j - 1]), prop, b, tl.tracks@.len() as int)
        } else {
            b
        }
    }
}

/// The end of the timelines of a node that follow each other from `i` on.
pub open spec fn batch_end(lines: Seq<TimelineInst>, node: i32, i: int) -> int
    decreases lines.len() - i,
{
    if 0 <= i < lines.len() && lines[i].node == node {
        batch_end(lines, node, i + 1)
    } else {
        i
    }
}

/// A timeline after a frame. One without an animation is over.
pub open spec fn line_after(styles: StyleTable, inst: TimelineInst) -> TimelineInst {
    if !inst.alive {
        inst
    } else if inst.anim < styles.anims@.len() {
        TimelineInst {
            clock: if inst.clock == u32::MAX {
                0
            } else {
                (inst.clock + 1) as u32
            },
            ..inst
        }
    } else {
        TimelineInst { alive: false, ..inst }
    }
}

/// The timelines that are not over, in order.
pub open spec fn alive_lines(lines: Seq<TimelineInst>) -> Seq<TimelineInst>
    decreases lines.len(),
{
    if lines.len() == 0 {
        Seq::empty()
    } else if lines.last().alive {
        alive_lines(lines.drop_last()).push(lines.last())
    } else {
        alive_lines(lines.drop_last())
    }
}

/// The animated values of a node after its timelines wrote theirs.
pub open spec fn written(
    styles: StyleTable,
    lines: Seq<TimelineInst>,
    i: int,
    j: int,
    anims: Seq<Option<u32>>,
) -> Seq<Option<u32>> {
    Seq::new(
        256,
        |p: int|
            match lines_over(styles, lines, i, j, p as u8) {
                Some(v) => v,
                None => anims[p],
            },
    )
}

/// The write of some property moves boxes.
pub open spec fn write_moves(
    styles: StyleTable,
    props: PropTable,
    lines: Seq<TimelineInst>,
    i: int,
    j: int,
    anims: Seq<Option<u32>>,
) -> bool {
    exists|p: u8|
        props.moves_boxes(p) && #[trigger] written(styles, lines, i, j, anims)[p as int]
            != anims[p as int]
}

impl SceneModel {
    /// The scene after the timelines from `i` up to `end`, all of one node,
    /// moved on.
    pub open spec fn batch_played(self, styles: StyleTable, props: PropTable, i: int, end: int) -> SceneModel {
        match self.tree.resolves(self.timelines[i].node as int) {
            None => SceneModel {
                timelines: Seq::new(
                    self.timelines.len(),
                    |j: int|
                        if i <= j < end {
                            TimelineInst { alive: false, ..self.timelines[j] }
                        } else {
                            self.timelines[j]
                        },
                ),
                ..self
            },
            Some(s) => {
                let n = self.nodes[s];
                (SceneModel {
                    timelines: Seq::new(
                        self.timelines.len(),
                        |j: int|
                            if i <= j < end {
                                line_after(styles, self.timelines[j])
                            } else {
                                self.timelines[j]
                            },
                    ),
                    ..self
                }).with_node(
                    s,
                    NodeModel { anims: written(styles, self.timelines, i, end, n.anims), ..n },
                ).restyled_if(s, write_moves(styles, props, self.timelines, i, end, n.anims))
            },
        }
    }

    /// The scene after the timelines from `i` on moved on.
    pub open spec fn lines_played(self, styles: StyleTable, props: PropTable, i: int) -> SceneModel
        decreases self.timelines.len() - i,
    {
        if i < 0 || i >= self.timelines.len() {
            self
        } else if !self.timelines[i].alive {
            self.lines_played(styles, props, i + 1)
        } else {
            let end = batch_end(self.timelines, self.timelines[i].node, i);
            if i < end <= self.timelines.len() {
                self.batch_played(styles, props, i, end).lines_played(styles, props, end)
            } else {
                self
            }
        }
    }

    /// The scene after all timelines moved on; those that are over are gone.
    pub open spec fn timelines_ticked(self, styles: StyleTable, props: PropTable) -> SceneModel {
        let m = self.lines_played(styles, props, 0);
        SceneModel { timelines: alive_lines(m.timelines), ..m }
    }

    /// The scene after one frame.
    pub open spec fn ticked(self, styles: StyleTable, props: PropTable, steps: Seq<TrackStep>) -> SceneModel {
        self.tracks_stepped(props, steps, steps.len() as int).timelines_ticked(styles, props)
    }
}

pub proof fn lemma_batch_end(lines: Seq<TimelineInst>, node: i32, i: int)
    requires
        0 <= i <= lines.len(),
    ensures
        i <= batch_end(lines, node, i) <= lines.len(),
        forall|j: int|
            #![trigger lines[j]]
            i <= j < batch_end(lines, node, i) ==> lines[j].node == node,
    decreases lines.len() - i,
{
    if i < lines.len() && lines[i].node == node {
        lemma_batch_end(lines, node, i + 1);
    }
}

fn sample(tl: &Timeline, k: usize, time: u32) -> (v: Option<u32>)
    requires
        tl.wf(),
        k < tl.tracks@.len(),
    ensures
        v == line_value(*tl, tl.tracks@[k as int], time as int),
{
    let track = &tl.tracks[k];
    proof {
        assert(tl.tracks@[k as int].samples@.len() == tl.period_frames + 1);
    }
    let rel: i64 = time as i64 - tl.delay_frames as i64;
    if rel < 0 {
        return if tl.fill_backwards {
            Some(track.samples[0])
        } else {
            None
        };
    }
    proof {
        crate::arith::lemma_mul_bounds(
            tl.period_frames as int,
            tl.iterations as int,
            0xffff,
            0xffff,
        );
    }
    let total: i64 = tl.period_frames as i64 * tl.iterations as i64;
    if tl.iterations != 0 && rel >= total {
        return if tl.fill_forwards {
            Some(track.samples[tl.period_frames as usize])
        } else {
            None
        };
    }
    let at: usize = (rel % tl.period_frames as i64) as usize;
    Some(track.samples[at])
}

/// What is to be written to a property.
pub open spec fn pending(writes: Seq<(u8, Option<u32>)>, prop: u8) -> Option<Option<u32>>
    decreases writes.len(),
{
    if writes.len() == 0 {
        None
    } else if writes.last().0 == prop {
        Some(writes.last().1)
    } else {
        pending(writes.drop_last(), prop)
    }
}

/// No property is listed twice.
pub open spec fn one_each(writes: Seq<(u8, Option<u32>)>) -> bool {
    forall|a: int, b: int|
        0 <= a < writes.len() && 0 <= b < writes.len() && (#[trigger] writes[a]).0 == (
        #[trigger] writes[b]).0 ==> a == b
}

proof fn lemma_pending_at(writes: Seq<(u8, Option<u32>)>, k: int)
    requires
        one_each(writes),
        0 <= k < writes.len(),
    ensures
        pending(writes, writes[k].0) == Some(writes[k].1),
    decreases writes.len(),
{
    if k < writes.len() - 1 {
        let w = writes.drop_last();
        assert forall|a: int, b: int|
            0 <= a < w.len() && 0 <= b < w.len() && (#[trigger] w[a]).0 == (#[trigger] w[b]).0 implies a
            == b by {
            assert(w[a] == writes[a] && w[b] == writes[b]);
        }
        assert(writes[k].0 != writes[writes.len() - 1].0);
        lemma_pending_at(w, k);
        assert(w[k] == writes[k]);
    }
}

proof fn lemma_pending_none(writes: Seq<(u8, Option<u32>)>, prop: u8)
    requires
        forall|k: int| 0 <= k < writes.len() ==> (#[trigger] writes[k]).0 != prop,
    ensures
        pending(writes, prop) is None,
    decreases writes.len(),
{
    if writes.len() > 0 {
        let w = writes.drop_last();
        assert forall|k: int| 0 <= k < w.len() implies (#[trigger] w[k]).0 != prop by {
            assert(w[k] == writes[k]);
        }
        assert(writes[writes.len() - 1].0 != prop);
        lemma_pending_none(w, prop);
    }
}

proof fn lemma_pending_update(writes: Seq<(u8, Option<u32>)>, k: int, v: Option<u32>, q: u8)
    requires
        one_each(writes),
        0 <= k < writes.len(),
    ensures
        pending(writes.update(k, (writes[k].0, v)), q) == (if q == writes[k].0 {
            Some(v)
        } else {
            pending(writes, q)
        }),
    decreases writes.len(),
{
    let after = writes.update(k, (writes[k].0, v));
    if k < writes.len() - 1 {
        let w = writes.drop_last();
        assert forall|a: int, b: int|
            0 <= a < w.len() && 0 <= b < w.len() && (#[trigger] w[a]).0 == (#[trigger] w[b]).0 implies a
            == b by {
            assert(w[a] == writes[a] && w[b] == writes[b]);
        }
        assert(after.drop_last() =~= w.update(k, (w[k].0, v)));
        assert(writes[k].0 != writes[writes.len() - 1].0);
        lemma_pending_update(w, k, v, q);
    } else {
        assert(after.drop_last() =~= writes.drop_last());
    }
}

/// Adds a value to what is to be written.
fn put_write(writes: &mut Vec<(u8, Option<u32>)>, prop: u8, value: Option<u32>)
    requires
        one_each(old(writes)@),
    ensures
        one_each(final(writes)@),
        forall|q: u8| #[trigger]
            pending(final(writes)@, q) == (if q == prop {
                over(pending(old(writes)@, q), value)
            } else {
                pending(old(writes)@, q)
            }),
{
    let ghost before = writes@;
    let mut k: usize = 0;
    while k < writes.len()
        invariant
            k <= writes@.len(),
            writes@ == before,
            before == old(writes)@,
            one_each(before),
            forall|j: int| 0 <= j < k ==> (#[trigger] writes@[j]).0 != prop,
        decreases writes@.len() - k,
    {
        if writes[k].0 == prop {
            proof {
                lemma_pending_at(before, k as int);
            }
            if value.is_some() {
                writes.set(k, (prop, value));
                proof {
                    assert(writes@ =~= before.update(k as int, (before[k as int].0, value)));
                    assert forall|q: u8| #[trigger]
                        pending(writes@, q) == (if q == prop {
                            over(pending(before, q), value)
                        } else {
                            pending(before, q)
                        }) by {
                        lemma_pending_update(before, k as int, value, q);
                    }
                    assert forall|a: int, b: int|
                        0 <= a < writes@.len() && 0 <= b < writes@.len() && (
                        #[trigger] writes@[a]).0 == (#[trigger] writes@[b]).0 implies a == b by {
                        assert(before[a].0 == writes@[a].0 && before[b].0 == writes@[b].0);
                    }
                }
            }
            return;
        }
        k = k + 1;
    }
    writes.push((prop, value));
    proof {
        lemma_pending_none(before, prop);
        assert(writes@.drop_last() =~= before);
        assert forall|a: int, b: int|
            0 <= a < writes@.len() && 0 <= b < writes@.len() && (#[trigger] writes@[a]).0 == (
            #[trigger] writes@[b]).0 implies a == b by {
            if a < before.len() && b < before.len() {
                assert(before[a] == writes@[a] && before[b] == writes@[b]);
            }
        }
    }
}

impl Scene {
    /// Collects what the timelines of a node write and moves their clocks on.
    fn play_lines(&mut self, i: usize, end: usize) -> (writes: Vec<(u8, Option<u32>)>)
        requires
            old(self).wf(),
            i <= end <= old(self).timelines@.len(),
        ensures
            final(self).wf(),
            final(self).same_tables(*old(self)),
            final(self)@ == (SceneModel {
                timelines: Seq::new(
                    old(self)@.timelines.len(),
                    |j: int|
                        if i <= j < end {
                            line_after(old(self).styles, old(self)@.timelines[j])
                        } else {
                            old(self)@.timelines[j]
                        },
                ),
                ..old(self)@
            }),
            final(self).nodes == old(self).nodes,
            one_each(writes@),
            forall|q: u8| #[trigger]
                pending(writes@, q) == lines_over(
                    old(self).styles,
                    old(self)@.timelines,
                    i as int,
                    end as int,
                    q,
                ),
    {
        let ghost lines = self.timelines@;
        let mut writes: Vec<(u8, Option<u32>)> = Vec::new();
        let mut j: usize = i;
        while j < end
            invariant
                i <= j <= end <= lines.len(),
                lines == old(self).timelines@,
                self.wf(),
                self.same_tables(*old(self)),
                self.tree == old(self).tree,
                self.nodes == old(self).nodes,
                self.anims == old(self).anims,
                self.layouts == old(self).layouts,
                self.focused == old(self).focused,
                self.timelines@.len() == lines.len(),
                forall|k: int|
                    #![trigger self.timelines@[k]]
                    0 <= k < lines.len() ==> self.timelines@[k] == (if i <= k < j {
                        line_after(self.styles, lines[k])
                    } else {
                        lines[k]
                    }),
                one_each(writes@),
                forall|q: u8| #[trigger]
                    pending(writes@, q) == lines_over(self.styles, lines, i as int, j as int, q),
            decreases end - j,
        {
            let inst = self.timelines[j];
            if inst.alive {
                if (inst.anim as usize) < self.styles.anims.len() {
                    let tl = &self.styles.anims[inst.anim as usize];
                    let time: u32 = if inst.loop_frames > 0 {
                        inst.clock % inst.loop_frames as u32
                    } else {
                        inst.clock
                    };
                    let clock: u32 = if inst.clock == u32::MAX {
                        0
                    } else {
                        inst.clock + 1
                    };
                    let mut k: usize = 0;
                    while k < tl.tracks.len()
                        invariant
                            k <= tl.tracks@.len(),
                            tl.wf(),
                            one_each(writes@),
                            forall|q: u8| #[trigger]
                                pending(writes@, q) == tracks_over(
                                    *tl,
                                    time as int,
                                    q,
                                    lines_over(old(self).styles, lines, i as int, j as int, q),
                                    k as int,
                                ),
                        decreases tl.tracks@.len() - k,
                    {
                        let v = sample(tl, k, time);
                        put_write(&mut writes, tl.tracks[k].prop, v);
                        k = k + 1;
                    }
                    self.timelines.set(j, TimelineInst { clock, ..inst });
                } else {
                    self.timelines.set(j, TimelineInst { alive: false, ..inst });
                }
            }
            j = j + 1;
        }
        proof {
            let want = Seq::new(
                lines.len(),
                |k: int|
                    if i <= k < end {
                        line_after(self.styles, lines[k])
                    } else {
                        lines[k]
                    },
            );
            assert(self.timelines@ =~= want);
        }
        writes
    }
}

proof fn lemma_pending_some(writes: Seq<(u8, Option<u32>)>, prop: u8)
    requires
        pending(writes, prop) is Some,
    ensures
        exists|k: int|
            0 <= k < writes.len() && (#[trigger] writes[k]).0 == prop && pending(writes, prop)
                == Some(writes[k].1),
    decreases writes.len(),
{
    if writes.last().0 == prop {
        assert(writes[writes.len() - 1].0 == prop);
    } else {
        let w = writes.drop_last();
        lemma_pending_some(w, prop);
        let k = choose|k: int|
            0 <= k < w.len() && (#[trigger] w[k]).0 == prop && pending(w, prop) == Some(w[k].1);
        assert(writes[k] == w[k]);
    }
}

/// A value to be written differs from what is there, and moves boxes.
pub open spec fn some_write_moves(
    props: PropTable,
    writes: Seq<(u8, Option<u32>)>,
    anims: Seq<Option<u32>>,
    n: int,
) -> bool {
    exists|k: int|
        0 <= k < n && props.moves_boxes((#[trigger] writes[k]).0) && writes[k].1
            != anims[writes[k].0 as int]
}

/// Writes values to a node, and says whether boxes move.
fn write_all(n: &mut Node, writes: &Vec<(u8, Option<u32>)>, props: &PropTable) -> (moved: bool)
    requires
        one_each(writes@),
        props.wf(),
    ensures
        final(n)@ == (NodeModel {
            anims: Seq::new(
                256,
                |p: int|
                    match pending(writes@, p as u8) {
                        Some(v) => v,
                        None => old(n)@.anims[p],
                    },
            ),
            ..old(n)@
        }),
        moved == some_write_moves(*props, writes@, old(n)@.anims, writes@.len() as int),
{
    let ghost m = n@;
    let mut moved: bool = false;
    let mut k: usize = 0;
    proof {
        assert(writes@.take(0) =~= Seq::<(u8, Option<u32>)>::empty());
    }
    while k < writes.len()
        invariant
            k <= writes@.len(),
            one_each(writes@),
            props.wf(),
            m == old(n)@,
            n@ == (NodeModel { anims: n@.anims, ..m }),
            n@.anims.len() == 256,
            forall|p: u8|
                #![trigger n@.anims[p as int]]
                n@.anims[p as int] == (match pending(writes@.take(k as int), p) {
                    Some(v) => v,
                    None => m.anims[p as int],
                }),
            moved == some_write_moves(*props, writes@, m.anims, k as int),
        decreases writes@.len() - k,
    {
        let (prop, value) = writes[k];
        let ghost before = n@;
        let ghost was = moved;
        proof {
            let w = writes@.take(k as int);
            assert(writes@.take(k + 1).drop_last() =~= w);
            assert forall|j: int| 0 <= j < w.len() implies (#[trigger] w[j]).0 != prop by {
                assert(w[j] == writes@[j]);
                assert(writes@[k as int].0 == prop);
            }
            lemma_pending_none(w, prop);
            assert(n@.anims[prop as int] == m.anims[prop as int]);
        }
        let prev = n.find_anim(prop);
        let dirtying: bool = props.dirtying[prop as usize];
        match value {
            Some(bits) => {
                let same: bool = match prev {
                    Some(v) => v == bits,
                    None => false,
                };
                if !same {
                    n.put_anim(prop, bits);
                    moved = moved || dirtying;
                }
            },
            None => {
                if prev.is_some() {
                    n.remove_anim(prop);
                    moved = moved || dirtying;
                }
            },
        }
        proof {
            assert(writes@[k as int] == (prop, value));
            assert(some_write_moves(*props, writes@, m.anims, k + 1) <==> was || (
            props.moves_boxes(prop) && value != m.anims[prop as int])) by {
                if was {
                    let j = choose|j: int|
                        0 <= j < k && props.moves_boxes((#[trigger] writes@[j]).0) && writes@[j].1
                            != m.anims[writes@[j].0 as int];
                    assert(props.moves_boxes(writes@[j].0));
                }
            }
            assert forall|p: u8|
                #![trigger n@.anims[p as int]]
                n@.anims[p as int] == (match pending(writes@.take(k + 1), p) {
                    Some(v) => v,
                    None => m.anims[p as int],
                }) by {
                if p != prop {
                    assert(n@.anims[p as int] == before.anims[p as int]);
                }
            }
        }
        k = k + 1;
    }
    proof {
        assert(writes@.take(k as int) =~= writes@);
        let want = Seq::new(
            256,
            |p: int|
                match pending(writes@, p as u8) {
                    Some(v) => v,
                    None => m.anims[p],
                },
        );
        assert forall|p: int| 0 <= p < 256 implies #[trigger] n@.anims[p] == want[p] by {
            let q = p as u8;
            assert(n@.anims[q as int] == want[p]);
        }
        assert(n@.anims =~= want);
    }
    moved
}

impl Scene {
    /// Moves the timelines of a node on.
    fn play_batch(&mut self, i: usize, end: usize)
        requires
            old(self).wf(),
            i < end <= old(self).timelines@.len(),
        ensures
            final(self).wf(),
            final(self).same_tables(*old(self)),
            final(self)@ == old(self)@.batch_played(
                old(self).styles,
                old(self).props,
                i as int,
                end as int,
            ),
    {
        let ghost m = self@;
        let slot: u32 = match self.tree.resolve(self.timelines[i].node) {
            Some(s) => s,
            None => {
                let mut j: usize = i;
                while j < end
                    invariant
                        i <= j <= end <= m.timelines.len(),
                        self.wf(),
                        self.same_tables(*old(self)),
                        self.timelines@.len() == m.timelines.len(),
                        self@ == (SceneModel { timelines: self.timelines@, ..m }),
                        forall|k: int|
                            #![trigger self.timelines@[k]]
                            0 <= k < m.timelines.len() ==> self.timelines@[k] == (if i <= k < j {
                                TimelineInst { alive: false, ..m.timelines[k] }
                            } else {
                                m.timelines[k]
                            }),
                    decreases end - j,
                {
                    let t = self.timelines[j];
                    self.timelines.set(j, TimelineInst { alive: false, ..t });
                    j = j + 1;
                }
                proof {
                    let want = m.batch_played(self.styles, self.props, i as int, end as int);
                    assert(self@.timelines =~= want.timelines);
                }
                return;
            },
        };
        let s: usize = slot as usize;
        let ghost lines = self.timelines@;
        let writes = self.play_lines(i, end);
        let ghost mid = self@;
        let moved: bool = write_all(&mut self.nodes[s], &writes, &self.props);
        if moved {
            self.layouts.mark_layout_style(slot);
        }
        proof {
            let (styles, props) = (self.styles, self.props);
            let n = m.nodes[s as int];
            let want = m.batch_played(styles, props, i as int, end as int);
            let w = written(styles, lines, i as int, end as int, n.anims);
            assert(self@.nodes[s as int].anims =~= w);
            assert(self@.nodes =~= want.nodes);
            assert(moved == write_moves(styles, props, lines, i as int, end as int, n.anims)) by {
                if moved {
                    let k = choose|k: int|
                        0 <= k < writes@.len() && props.moves_boxes((#[trigger] writes@[k]).0)
                            && writes@[k].1 != n.anims[writes@[k].0 as int];
                    lemma_pending_at(writes@, k);
                    let p = writes@[k].0;
                    assert(w[p as int] == writes@[k].1);
                    assert(props.moves_boxes(p) && w[p as int] != n.anims[p as int]);
                }
                if write_moves(styles, props, lines, i as int, end as int, n.anims) {
                    let p = choose|p: u8|
                        props.moves_boxes(p) && #[trigger] w[p as int] != n.anims[p as int];
                    assert(pending(writes@, p) is Some);
                    lemma_pending_some(writes@, p);
                    let k = choose|k: int|
                        0 <= k < writes@.len() && (#[trigger] writes@[k]).0 == p && pending(
                            writes@,
                            p,
                        ) == Some(writes@[k].1);
                    assert(props.moves_boxes(writes@[k].0));
                }
            }
            assert(self@ =~= want);
        }
    }

    /// Moves all timelines on by one frame. Where several of a node write to a
    /// property, the last one that has a value for it wins; where none has, the
    /// property loses its animated value.
    fn tick_timelines(&mut self)
        requires
            old(self).wf(),
        ensures
            final(self).wf(),
            final(self).same_tables(*old(self)),
            final(self)@ == old(self)@.timelines_ticked(old(self).styles, old(self).props),
    {
        let ghost m = self@;
        let mut i: usize = 0;
        let n: usize = self.timelines.len();
        while i < n
            invariant
                i <= n,
                n == self.timelines@.len(),
                self.wf(),
                self.same_tables(*old(self)),
                self@.lines_played(self.styles, self.props, i as int) == m.lines_played(
                    self.styles,
                    self.props,
                    0,
                ),
            decreases n - i,
        {
            if !self.timelines[i].alive {
                i = i + 1;
            } else {
                let node: i32 = self.timelines[i].node;
                let ghost lines = self.timelines@;
                let mut end: usize = i;
                while end < n && self.timelines[end].node == node
                    invariant
                        i <= end <= n,
                        n == self.timelines@.len(),
                        self.timelines@ == lines,
                        batch_end(lines, node, end as int) == batch_end(lines, node, i as int),
                    decreases n - end,
                {
                    end = end + 1;
                }
                proof {
                    lemma_batch_end(lines, node, i as int);
                    assert(batch_end(lines, node, i as int) == end);
                    assert(batch_end(lines, node, i as int) == batch_end(lines, node, i + 1));
                    lemma_batch_end(lines, node, i + 1);
                }
                self.play_batch(i, end);
                i = end;
            }
        }
        let mut kept: Vec<TimelineInst> = Vec::new();
        let mut k: usize = 0;
        proof {
            assert(self.timelines@.take(0) =~= Seq::<TimelineInst>::empty());
        }
        while k < n
            invariant
                k <= n,
                n == self.timelines@.len(),
                kept@ == alive_lines(self.timelines@.take(k as int)),
            decreases n - k,
        {
            proof {
                assert(self.timelines@.take(k + 1).drop_last() =~= self.timelines@.take(k as int));
            }
            let t = self.timelines[k];
            if t.alive {
                kept.push(t);
            }
            k = k + 1;
        }
        proof {
            assert(self.timelines@.take(k as int) =~= self.timelines@);
        }
        self.timelines = kept;
        proof {
            assert(self@ =~= m.timelines_ticked(self.styles, self.props));
        }
    }

    /// One frame of everything that moves.
    pub fn tick(&mut self, steps: &[TrackStep])
        requires
            old(self).wf(),
            steps@.len() == old(self).anims.tracks@.len(),
        ensures
            final(self).wf(),
            final(self).same_tables(*old(self)),
            final(self)@ == old(self)@.ticked(old(self).styles, old(self).props, steps@),
    {
        self.step_tracks(steps);
        self.tick_timelines();
    }
}

// ---- laws -----------------------------------------------------------------------------------

proof fn lemma_silent_tracks(tl: Timeline, time: int, prop: u8, below: Option<Option<u32>>, n: int)
    requires
        0 <= n <= tl.tracks@.len(),
        forall|k: int|
            #![trigger tl.tracks@[k]]
            0 <= k < n && tl.tracks@[k].prop == prop ==> line_value(tl, tl.tracks@[k], time) is None,
        below matches Some(b) && b is Some,
    ensures
        tracks_over(tl, time, prop, below, n) == below,
    decreases n,
{
    if n > 0 {
        lemma_silent_tracks(tl, time, prop, below, n - 1);
        assert(tl.tracks@[n - 1].prop == prop ==> line_value(tl, tl.tracks@[n - 1], time) is None);
    }
}

/// A timeline has no value for a property.
pub open spec fn silent(styles: StyleTable, inst: TimelineInst, prop: u8) -> bool {
    plays_on(styles, inst) ==> {
        let tl = styles.anims@[inst.anim as int];
        forall|k: int|
            #![trigger tl.tracks@[k]]
            0 <= k < tl.tracks@.len() && tl.tracks@[k].prop == prop ==> line_value(
                tl,
                tl.tracks@[k],
                line_time(inst),
            ) is None
    }
}

/// Of the timelines of a node, the last one that has a value for a property
/// wins: ones without a value yield to those before them.
pub proof fn law_last_writer_wins(
    styles: StyleTable,
    lines: Seq<TimelineInst>,
    i: int,
    j: int,
    w: int,
    v: u32,
    prop: u8,
)
    requires
        0 <= i <= w < j <= lines.len(),
        lines_over(styles, lines, i, w + 1, prop) == Some(Some(v)),
        forall|k: int| #![trigger lines[k]] w < k < j ==> silent(styles, lines[k], prop),
    ensures
        lines_over(styles, lines, i, j, prop) == Some(Some(v)),
    decreases j - w,
{
    if j > w + 1 {
        law_last_writer_wins(styles, lines, i, j - 1, w, v, prop);
        let inst = lines[j - 1];
        assert(silent(styles, inst, prop));
        if plays_on(styles, inst) {
            let tl = styles.anims@[inst.anim as int];
            lemma_silent_tracks(
                tl,
                line_time(inst),
                prop,
                Some(Some(v)),
                tl.tracks@.len() as int,
            );
        }
    }
}

/// A timeline that has just written a value shows it, whatever came before.
pub proof fn law_writer_shows(
    styles: StyleTable,
    lines: Seq<TimelineInst>,
    i: int,
    w: int,
    prop: u8,
)
    requires
        0 <= i <= w < lines.len(),
        plays_on(styles, lines[w]),
        styles.anims@[lines[w].anim as int].tracks@.len() > 0,
        styles.anims@[lines[w].anim as int].tracks@.last().prop == prop,
        line_value(
            styles.anims@[lines[w].anim as int],
            styles.anims@[lines[w].anim as int].tracks@.last(),
            line_time(lines[w]),
        ) is Some,
    ensures
        lines_over(styles, lines, i, w + 1, prop) == Some(
            line_value(
                styles.anims@[lines[w].anim as int],
                styles.anims@[lines[w].anim as int].tracks@.last(),
                line_time(lines[w]),
            ),
        ),
{
}

} // verus!
