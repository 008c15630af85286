//! Changes of style and the animations they start.
use crate::anim::{
    law_spawned_track_runs, lemma_spawned_wf, runs_on, some_runs_on, spawned, tracks_wf,
    without_prop, Anims, Track, TrackSpec,
};
use crate::fbits::{below_zero, is_nan, nan, negative};
use crate::scene::{node_value, node_values, values, NodeModel, Scene, SceneModel, TimelineInst};
use crate::style::{
    lemma_lookup_push, lookup, AnimationBlock, PropTable, StyleTable, Transition, ANIM_NONE,
    KIND_COLOR, KIND_NONE,
};
use crate::tree::id_space;
use vstd::prelude::*;

verus! {

// ---- transitions ------------------------------------------------------------------------

/// The transition of a style.
pub open spec fn transition_of(table: StyleTable, style_id: i32) -> Option<Transition> {
    match table.record_of(style_id) {
        Some(r) => r.transition,
        None => None,
    }
}

/// Values between which a number cannot move: sizes below zero stand for other
/// things, and what is no number has no way to anywhere.
pub open spec fn fixed_end(props: PropTable, prop: u8, bits: u32) -> bool {
    !props.is_color(prop) && (is_nan(bits) || props.is_size(prop) && below_zero(bits))
}

/// A change of a property from one value to another is animated.
pub open spec fn tweens(props: PropTable, tr: Transition, prop: u8, from: u32, to: u32) -> bool {
    let bit = props.anim_bits@[prop as int];
    &&& bit < 32
    &&& tr.mask & (1u32 << bit) != 0
    &&& from != to
    &&& !fixed_end(props, prop, from)
    &&& !fixed_end(props, prop, to)
}

/// The track of a transition.
pub open spec fn tween(
    props: PropTable,
    tr: Transition,
    node: i32,
    prop: u8,
    from: u32,
    to: u32,
    hz: u32,
) -> TrackSpec {
    TrackSpec {
        node,
        prop,
        is_color: props.is_color(prop),
        explicit: false,
        from,
        to,
        dur_ms: tr.dur_ms as u32,
        easing: tr.easing,
        delay_ms: tr.delay_ms as u32,
        hz,
    }
}

/// Tracks and animated values of a node after the transitions of its first `n`
/// properties were started. Until a track moves on, its property keeps the old
/// value.
pub open spec fn tweened(
    props: PropTable,
    tr: Transition,
    node: i32,
    old: Seq<u32>,
    target: Seq<u32>,
    hz: u32,
    tracks: Seq<Track>,
    anims: Seq<Option<u32>>,
    n: int,
) -> (Seq<Track>, Seq<Option<u32>>)
    decreases n,
{
    if n <= 0 {
        (tracks, anims)
    } else {
        let (t, a) = tweened(props, tr, node, old, target, hz, tracks, anims, n - 1);
        let p = (n - 1) as u8;
        if tweens(props, tr, p, old[n - 1], target[n - 1]) {
            let (t2, id) = spawned(t, tween(props, tr, node, p, old[n - 1], target[n - 1], hz));
            (
                t2,
                if id > 0 {
                    a.update(n - 1, Some(old[n - 1]))
                } else {
                    a
                },
            )
        } else {
            (t, a)
        }
    }
}

/// The animated values that a running track stands behind.
pub open spec fn backed(tracks: Seq<Track>, node: i32, anims: Seq<Option<u32>>) -> Seq<Option<u32>> {
    Seq::new(
        256,
        |p: int|
            if some_runs_on(tracks, node, p as u8) {
                anims[p]
            } else {
                None
            },
    )
}

/// Tables that say how styles work.
pub struct Rules {
    pub styles: StyleTable,
    pub props: PropTable,
    pub hz: u32,
}

impl SceneModel {
    /// The scene after the style of the node in slot `s` changed, where `old`
    /// is how it looked before: what the transition of the style covers is
    /// animated if `allow`, and values no track stands behind are dropped.
    pub open spec fn retargeted(self, r: Rules, s: int, old: Seq<u32>, allow: bool) -> SceneModel {
        let n = self.nodes[s];
        let node = self.tree.id_of(s) as i32;
        let target = node_values(n, r.styles, false);
        let (tracks, anims) = match transition_of(r.styles, n.style_id) {
            Some(tr) if allow => tweened(
                r.props,
                tr,
                node,
                old,
                target,
                r.hz,
                self.tracks,
                n.anims,
                256,
            ),
            _ => (self.tracks, n.anims),
        };
        (SceneModel { tracks, ..self }).with_node(
            s,
            NodeModel { anims: backed(tracks, node, anims), ..n },
        )
    }
}

fn is_fixed_end(props: &PropTable, prop: u8, bits: u32) -> (r: bool)
    requires
        props.wf(),
    ensures
        r == fixed_end(*props, prop, bits),
{
    props.kinds[prop as usize] != KIND_COLOR && (nan(bits) || (prop == props.width || prop
        == props.height) && negative(bits))
}

fn does_tween(props: &PropTable, tr: Transition, prop: u8, from: u32, to: u32) -> (r: bool)
    requires
        props.wf(),
    ensures
        r == tweens(*props, tr, prop, from, to),
{
    let bit: u8 = props.anim_bits[prop as usize];
    if bit >= 32 || tr.mask & (1u32 << bit) == 0 || from == to {
        return false;
    }
    !is_fixed_end(props, prop, from) && !is_fixed_end(props, prop, to)
}

/// Drops the values that no running track stands behind.
fn retain_backed(entries: &Vec<(u8, u32)>, anims: &Anims, node: i32) -> (kept: Vec<(u8, u32)>)
    ensures
        values(kept@) == backed(anims.tracks@, node, values(entries@)),
{
    let mut kept: Vec<(u8, u32)> = Vec::new();
    let mut i: usize = 0;
    proof {
        assert(entries@.take(0) =~= Seq::<(u8, u32)>::empty());
        assert(kept@ =~= Seq::<(u8, u32)>::empty());
    }
    while i < entries.len()
        invariant
            i <= entries@.len(),
            forall|q: u8| #[trigger]
                lookup(kept@, q) == (if some_runs_on(anims.tracks@, node, q) {
                    lookup(entries@.take(i as int), q)
                } else {
                    None
                }),
        decreases entries@.len() - i,
    {
        let e = entries[i];
        let ghost before = kept@;
        if anims.has_live(node, e.0) {
            kept.push(e);
        }
        proof {
            assert(entries@.take(i + 1) =~= entries@.take(i as int).push(e));
            assert forall|q: u8| #[trigger]
                lookup(kept@, q) == (if some_runs_on(anims.tracks@, node, q) {
                    lookup(entries@.take(i + 1), q)
                } else {
                    None
                }) by {
                lemma_lookup_push(entries@.take(i as int), e, q);
                lemma_lookup_push(before, e, q);
            }
        }
        i = i + 1;
    }
    proof {
        assert(entries@.take(i as int) =~= entries@);
        assert(values(kept@) =~= backed(anims.tracks@, node, values(entries@)));
    }
    kept
}

impl Scene {
    pub open spec fn rules(self) -> Rules {
        Rules { styles: self.styles, props: self.props, hz: self.tick_hz }
    }

    fn transition(&self, style_id: i32) -> (r: Option<Transition>)
        ensures
            r == transition_of(self.styles, style_id),
    {
        if style_id >= 0 && (style_id as usize) < self.styles.records.len() {
            self.styles.records[style_id as usize].transition
        } else {
            None
        }
    }

    /// Starts the transitions of a node whose style has changed.
    fn retarget(&mut self, slot: u32, old_values: &Vec<u32>, allow: bool)
        requires
            old(self).wf(),
            slot < old(self).nodes@.len(),
            old_values@.len() == 256,
        ensures
            final(self).wf(),
            final(self).same_tables(*old(self)),
            final(self)@ == old(self)@.retargeted(
                old(self).rules(),
                slot as int,
                old_values@,
                allow,
            ),
    {
        let ghost m = self@;
        let s: usize = slot as usize;
        let node: i32 = self.tree.id(slot);
        let target = self.nodes[s].resolve(&self.styles, false);
        let tr = self.transition(self.nodes[s].styled.style_id);
        let ghost (tracks, anims) = (m.tracks, m.nodes[s as int].anims);
        match tr {
            Some(tr) if allow => {
                let mut p: usize = 0;
                while p < 256
                    invariant
                        p <= 256,
                        self.wf(),
                        self.same_tables(*old(self)),
                        self.tree == old(self).tree,
                        self.timelines == old(self).timelines,
                        self.layouts == old(self).layouts,
                        self.focused == old(self).focused,
                        s < self.nodes@.len(),
                        s == slot,
                        m == old(self)@,
                        node == m.tree.id_of(s as int),
                        old_values@.len() == 256,
                        target@.len() == 256,
                        self@.nodes.len() == m.nodes.len(),
                        m.nodes[s as int].anims.len() == 256,
                        (self@.tracks, self@.nodes[s as int].anims) == tweened(
                            self.props,
                            tr,
                            node,
                            old_values@,
                            target@,
                            self.tick_hz,
                            m.tracks,
                            m.nodes[s as int].anims,
                            p as int,
                        ),
                        self@.nodes =~= m.nodes.update(
                            s as int,
                            NodeModel {
                                anims: self@.nodes[s as int].anims,
                                ..m.nodes[s as int]
                            },
                        ),
                    decreases 256 - p,
                {
                    let from: u32 = old_values[p];
                    let to: u32 = target[p];
                    let prop: u8 = p as u8;
                    let ghost before = self@;
                    proof {
                        assert((p + 1 - 1) as u8 == prop);
                    }
                    if does_tween(&self.props, tr, prop, from, to) {
                        let spec = TrackSpec {
                            node,
                            prop,
                            is_color: self.props.kinds[p] == KIND_COLOR,
                            explicit: false,
                            from,
                            to,
                            dur_ms: tr.dur_ms as u32,
                            easing: tr.easing,
                            delay_ms: tr.delay_ms as u32,
                            hz: self.tick_hz,
                        };
                        proof {
                            assert(spec == tween(self.props, tr, node, prop, from, to, self.tick_hz));
                        }
                        let id: i32 = self.anims.spawn(spec);
                        if id > 0 {
                            self.nodes[s].put_anim(prop, from);
                        }
                    }
                    proof {
                        let now = self@.nodes[s as int];
                        let kept = m.nodes.update(
                            s as int,
                            NodeModel { anims: now.anims, ..m.nodes[s as int] },
                        );
                        assert(now == NodeModel { anims: now.anims, ..before.nodes[s as int] });
                        assert forall|i: int| 0 <= i < kept.len() implies #[trigger] self@.nodes[i]
                            == kept[i] by {
                            if i != s {
                                assert(self@.nodes[i] == before.nodes[i]);
                            }
                        }
                        assert(self@.nodes =~= kept);
                    }
                    p = p + 1;
                }
            },
            _ => {
                proof {
                    assert(self@.nodes =~= m.nodes.update(s as int, m.nodes[s as int]));
                }
            },
        }
        let ghost mid = self@;
        let kept = retain_backed(&self.nodes[s].styled.anim_values, &self.anims, node);
        self.nodes[s].styled.anim_values = kept;
        proof {
            let want = m.retargeted(self.rules(), slot as int, old_values@, allow);
            assert(self@.tracks == want.tracks);
            assert(self@.nodes[s as int] =~= want.nodes[s as int]);
            assert forall|i: int| 0 <= i < m.nodes.len() implies #[trigger] self@.nodes[i]
                == want.nodes[i] by {
                if i != s {
                    assert(self@.nodes[i] == mid.nodes[i]);
                }
            }
            assert(self@.nodes =~= want.nodes);
            assert(self@ =~= want);
        }
    }
}

// ---- timelines of a style ---------------------------------------------------------------

/// The timelines with those on a node stopped.
pub open spec fn stopped(lines: Seq<TimelineInst>, node: i32) -> Seq<TimelineInst> {
    Seq::new(
        lines.len(),
        |i: int|
            if lines[i].node == node {
                TimelineInst { alive: false, ..lines[i] }
            } else {
                lines[i]
            },
    )
}

/// New timelines of a node, in the order of their list. Numbers that stand for
/// no animation are passed over.
pub open spec fn new_lines(list: Seq<u16>, loop_frames: u16, count: nat, node: i32) -> Seq<
    TimelineInst,
>
    decreases list.len(),
{
    if list.len() == 0 {
        Seq::empty()
    } else {
        let rest = new_lines(list.drop_last(), loop_frames, count, node);
        if list.last() < count {
            rest.push(TimelineInst { alive: true, node, anim: list.last(), clock: 0, loop_frames })
        } else {
            rest
        }
    }
}

/// The animation of a style.
pub open spec fn animation_of(table: StyleTable, style_id: i32) -> Option<AnimationBlock> {
    match table.record_of(style_id) {
        Some(r) => r.animation,
        None => None,
    }
}

impl SceneModel {
    /// The scene after the timelines of the style of a node were started anew.
    pub open spec fn restarted(self, styles: StyleTable, s: int) -> SceneModel {
        let node = self.tree.id_of(s) as i32;
        let rest = stopped(self.timelines, node);
        SceneModel {
            timelines: match animation_of(styles, self.nodes[s].style_id) {
                Some(a) => rest + new_lines(a.anims@, a.loop_frames, styles.anims@.len(), node),
                None => rest,
            },
            ..self
        }
    }

    /// The scene after a style was applied to the node in slot `s`. It is
    /// animated unless it is the first style of the node.
    pub open spec fn with_style(self, r: Rules, s: int, style_id: i32) -> SceneModel {
        let n = self.nodes[s];
        let old = node_values(n, r.styles, true);
        let id = if style_id < 0 {
            (-1) as i32
        } else {
            style_id
        };
        self.with_node(s, NodeModel { style_id: id, initialized: true, ..n }).retargeted(
            r,
            s,
            old,
            n.initialized,
        ).restarted(r.styles, s).restyled(s)
    }

    /// The scene after a value was set on the node in slot `s`: an animation of
    /// the property ends.
    pub open spec fn with_prop(self, r: Rules, s: int, prop: u8, bits: u32) -> SceneModel {
        let n = self.nodes[s];
        (SceneModel {
            tracks: without_prop(self.tracks, self.tree.id_of(s) as i32, prop),
            ..self
        }).with_node(
            s,
            NodeModel {
                anims: n.anims.update(prop as int, None),
                overrides: n.overrides.update(prop as int, Some(bits)),
                ..n
            },
        ).restyled_if(s, r.props.moves_boxes(prop))
    }

    /// The scene after the focus came to, or left, the node in slot `s`.
    pub open spec fn with_focus(self, r: Rules, s: int, on: bool) -> SceneModel {
        let n = self.nodes[s];
        self.with_node(s, NodeModel { focused: on, ..n }).retargeted(
            r,
            s,
            node_values(n, r.styles, true),
            true,
        ).restyled(s)
    }

    /// The scene after the focus was moved; 0 takes it away.
    pub open spec fn focus_moved(self, r: Rules, id: i32) -> SceneModel {
        if id == self.focused || id != 0 && self.tree.resolves(id as int) is None {
            self
        } else {
            let from = self.tree.resolves(self.focused as int);
            let m = SceneModel { focused: id, ..self };
            let left = match from {
                Some(s) => m.with_focus(r, s, false),
                None => m,
            };
            match self.tree.resolves(id as int) {
                Some(s) => left.with_focus(r, s, true),
                None => left,
            }
        }
    }

    /// The style of a node has values for when it is pressed.
    pub open spec fn has_active(self, r: Rules, s: int) -> bool {
        r.styles.record_of(self.nodes[s].style_id) matches Some(rec) && rec.active@.len() > 0
    }

    /// The scene after the node in slot `s` was pressed or released.
    pub open spec fn with_active(self, r: Rules, s: int, on: bool) -> SceneModel {
        let n = self.nodes[s];
        let m = self.with_node(s, NodeModel { active: on, ..n });
        if n.active == on {
            self
        } else if !self.has_active(r, s) {
            m
        } else {
            m.retargeted(r, s, node_values(n, r.styles, true), true).restyled(s)
        }
    }
}

impl Scene {
    /// Stops the timelines of a node and starts those of its style.
    fn restart_timelines(&mut self, slot: u32)
        requires
            old(self).wf(),
            slot < old(self).nodes@.len(),
        ensures
            final(self).wf(),
            final(self).same_tables(*old(self)),
            final(self)@ == old(self)@.restarted(old(self).styles, slot as int),
    {
        let ghost m = self@;
        let node: i32 = self.tree.id(slot);
        let mut i: usize = 0;
        while i < self.timelines.len()
            invariant
                i <= self.timelines@.len(),
                self.timelines@.len() == m.timelines.len(),
                m.timelines == old(self).timelines@,
                self.tree == old(self).tree,
                self.nodes == old(self).nodes,
                self.anims == old(self).anims,
                self.layouts == old(self).layouts,
                self.focused == old(self).focused,
                self.same_tables(*old(self)),
                forall|j: int|
                    #![trigger self.timelines@[j]]
                    0 <= j < i ==> self.timelines@[j] == stopped(m.timelines, node)[j],
                forall|j: int|
                    #![trigger self.timelines@[j]]
                    i <= j < m.timelines.len() ==> self.timelines@[j] == m.timelines[j],
            decreases self.timelines@.len() - i,
        {
            let t = self.timelines[i];
            if t.node == node {
                self.timelines.set(i, TimelineInst { alive: false, ..t });
            }
            i = i + 1;
        }
        let ghost rest = stopped(m.timelines, node);
        proof {
            assert(self.timelines@ =~= rest);
        }
        let style_id: i32 = self.nodes[slot as usize].styled.style_id;
        if style_id >= 0 && (style_id as usize) < self.styles.records.len() {
            let count: usize = self.styles.anims.len();
            match &self.styles.records[style_id as usize].animation {
                Some(a) => {
                    let mut k: usize = 0;
                    proof {
                        assert(a.anims@.take(0) =~= Seq::<u16>::empty());
                        assert(rest + Seq::<TimelineInst>::empty() =~= rest);
                    }
                    while k < a.anims.len()
                        invariant
                            k <= a.anims@.len(),
                            count == self.styles.anims@.len(),
                            self.tree == old(self).tree,
                            self.nodes == old(self).nodes,
                            self.anims == old(self).anims,
                            self.layouts == old(self).layouts,
                            self.focused == old(self).focused,
                            self.same_tables(*old(self)),
                            self.timelines@ == rest + new_lines(
                                a.anims@.take(k as int),
                                a.loop_frames,
                                count as nat,
                                node,
                            ),
                        decreases a.anims@.len() - k,
                    {
                        proof {
                            assert(a.anims@.take(k + 1).drop_last() =~= a.anims@.take(k as int));
                        }
                        let aid: u16 = a.anims[k];
                        if (aid as usize) < count {
                            self.timelines.push(
                                TimelineInst {
                                    alive: true,
                                    node,
                                    anim: aid,
                                    clock: 0,
                                    loop_frames: a.loop_frames,
                                },
                            );
                        }
                        proof {
                            assert(self.timelines@ =~= rest + new_lines(
                                a.anims@.take(k + 1),
                                a.loop_frames,
                                count as nat,
                                node,
                            ));
                        }
                        k = k + 1;
                    }
                    proof {
                        assert(a.anims@.take(k as int) =~= a.anims@);
                    }
                },
                None => {},
            }
        }
        proof {
            assert(self@ =~= m.restarted(self.styles, slot as int));
        }
    }

    /// Applies a style to a node; one below 0 takes it away.
    pub fn set_style(&mut self, id: i32, style_id: i32)
        requires
            old(self).wf(),
        ensures
            final(self).wf(),
            final(self).same_tables(*old(self)),
            final(self)@ == (match old(self)@.tree.resolves(id as int) {
                Some(s) => old(self)@.with_style(old(self).rules(), s, style_id),
                None => old(self)@,
            }),
    {
        let slot: u32 = match self.tree.resolve(id) {
            Some(s) => s,
            None => return,
        };
        let s: usize = slot as usize;
        let ghost m = self@;
        let before = self.nodes[s].resolve(&self.styles, true);
        let was: bool = self.nodes[s].initialized;
        self.nodes[s].styled.style_id = if style_id < 0 {
            -1
        } else {
            style_id
        };
        self.nodes[s].initialized = true;
        proof {
            let sid = if style_id < 0 {
                (-1) as i32
            } else {
                style_id
            };
            let m1 = m.with_node(
                s as int,
                NodeModel { style_id: sid, initialized: true, ..m.nodes[s as int] },
            );
            assert(self@.nodes =~= m1.nodes);
            assert(self@ =~= m1);
        }
        self.retarget(slot, &before, was);
        self.restart_timelines(slot);
        self.layouts.mark_layout_style(slot);
    }

    /// Sets the value of one property of a node. It wins over a running
    /// animation of the property.
    pub fn set_prop(&mut self, id: i32, prop: u8, bits: u32)
        requires
            old(self).wf(),
        ensures
            final(self).wf(),
            final(self).same_tables(*old(self)),
            final(self)@ == (match old(self)@.tree.resolves(id as int) {
                Some(s) if old(self).props.kind_of(prop) != KIND_NONE => old(self)@.with_prop(
                    old(self).rules(),
                    s,
                    prop,
                    bits,
                ),
                _ => old(self)@,
            }),
    {
        if self.props.kinds[prop as usize] == KIND_NONE {
            return;
        }
        match self.tree.resolve(id) {
            Some(s) => self.put_prop(s, prop, bits),
            None => {},
        }
    }

    fn put_prop(&mut self, slot: u32, prop: u8, bits: u32)
        requires
            old(self).wf(),
            slot < old(self).nodes@.len(),
        ensures
            final(self).wf(),
            final(self).same_tables(*old(self)),
            final(self)@ == old(self)@.with_prop(old(self).rules(), slot as int, prop, bits),
    {
        let ghost m = self@;
        let s: usize = slot as usize;
        let node: i32 = self.tree.id(slot);
        self.anims.kill_for(node, prop);
        self.nodes[s].remove_anim(prop);
        self.nodes[s].put_override(prop, bits);
        if self.props.dirtying[prop as usize] {
            self.layouts.mark_layout_style(slot);
        }
        proof {
            let want = m.with_prop(self.rules(), slot as int, prop, bits);
            assert(self@.nodes =~= want.nodes);
            assert(self@ =~= want);
        }
    }

    fn flip_focus(&mut self, slot: u32, on: bool)
        requires
            old(self).wf(),
            slot < old(self).nodes@.len(),
        ensures
            final(self).wf(),
            final(self).same_tables(*old(self)),
            final(self)@ == old(self)@.with_focus(old(self).rules(), slot as int, on),
            final(self)@.tree == old(self)@.tree,
            final(self).nodes@.len() == old(self).nodes@.len(),
    {
        let ghost m = self@;
        let s: usize = slot as usize;
        let before = self.nodes[s].resolve(&self.styles, true);
        self.nodes[s].styled.focused = on;
        proof {
            let m1 = m.with_node(s as int, NodeModel { focused: on, ..m.nodes[s as int] });
            assert(self@.nodes =~= m1.nodes);
            assert(self@ =~= m1);
        }
        self.retarget(slot, &before, true);
        self.layouts.mark_layout_style(slot);
    }

    /// Moves the focus; 0 takes it away, and an id that names no node leaves
    /// it where it is.
    pub fn set_focus(&mut self, id: i32)
        requires
            old(self).wf(),
        ensures
            final(self).wf(),
            final(self).same_tables(*old(self)),
            final(self)@ == old(self)@.focus_moved(old(self).rules(), id),
    {
        let to = self.tree.resolve(id);
        if id != 0 && to.is_none() || id == self.focused {
            return;
        }
        let from = self.tree.resolve(self.focused);
        let ghost m = self@;
        self.focused = id;
        proof {
            assert(self@ =~= SceneModel { focused: id, ..m });
        }
        match from {
            Some(s) => self.flip_focus(s, false),
            None => {},
        }
        match to {
            Some(s) => self.flip_focus(s, true),
            None => {},
        }
    }

    /// Presses or releases a node. A style without values for that is not
    /// looked at again, so that its transitions go on.
    pub fn set_active(&mut self, id: i32, active: bool)
        requires
            old(self).wf(),
        ensures
            final(self).wf(),
            final(self).same_tables(*old(self)),
            final(self)@ == (match old(self)@.tree.resolves(id as int) {
                Some(s) => old(self)@.with_active(old(self).rules(), s, active),
                None => old(self)@,
            }),
    {
        let slot: u32 = match self.tree.resolve(id) {
            Some(s) => s,
            None => return,
        };
        let s: usize = slot as usize;
        if self.nodes[s].styled.active == active {
            return;
        }
        let ghost m = self@;
        let style_id: i32 = self.nodes[s].styled.style_id;
        let has_active: bool = style_id >= 0 && (style_id as usize) < self.styles.records.len()
            && self.styles.records[style_id as usize].active.len() > 0;
        let before = self.nodes[s].resolve(&self.styles, true);
        self.nodes[s].styled.active = active;
        proof {
            let m1 = m.with_node(s as int, NodeModel { active, ..m.nodes[s as int] });
            assert(self@.nodes =~= m1.nodes);
            assert(self@ =~= m1);
        }
        if has_active {
            self.retarget(slot, &before, true);
            self.layouts.mark_layout_style(slot);
        }
    }
}

// ---- animations that scripts start ----------------------------------------------------------

impl SceneModel {
    /// Scene and answer after a script started an animation: -1 when there is
    /// none, 0 when there is no place for it, else the id of its track. Where a
    /// value has no way to the other it is set at once.
    pub open spec fn with_animation(
        self,
        r: Rules,
        id: int,
        prop: u8,
        to: u32,
        dur_ms: u32,
        easing: u8,
        delay_ms: u32,
    ) -> (SceneModel, int) {
        if !r.props.animatable(prop) || easing > r.props.last_easing {
            (self, -1)
        } else {
            match self.tree.resolves(id) {
                None => (self, -1),
                Some(s) => {
                    let n = self.nodes[s];
                    let from = node_value(n, r.styles, true, prop);
                    let color = r.props.is_color(prop);
                    if !color && r.props.is_size(prop) && (below_zero(from) || below_zero(to)) {
                        (self, -1)
                    } else if !color && (is_nan(from) || is_nan(to)) {
                        (self.with_prop(r, s, prop, to), -1)
                    } else {
                        let (tracks, aid) = spawned(
                            self.tracks,
                            TrackSpec {
                                node: self.tree.id_of(s) as i32,
                                prop,
                                is_color: color,
                                explicit: true,
                                from,
                                to,
                                dur_ms,
                                easing,
                                delay_ms,
                                hz: r.hz,
                            },
                        );
                        let m = SceneModel { tracks, ..self };
                        (
                            if aid > 0 {
                                m.with_node(
                                    s,
                                    NodeModel {
                                        anims: n.anims.update(prop as int, Some(from)),
                                        ..n
                                    },
                                )
                            } else {
                                m
                            },
                            aid,
                        )
                    }
                },
            }
        }
    }

    /// The scene after an animation was stopped: its property stays as it is.
    pub open spec fn with_anim_cancelled(self, id: int) -> SceneModel {
        match Anims::place(self.tracks, id) {
            None => self,
            Some(at) => {
                let t = self.tracks[at];
                let m = SceneModel {
                    tracks: self.tracks.update(at, crate::anim::ended(t)),
                    ..self
                };
                match self.tree.resolves(t.node as int) {
                    Some(s) if self.nodes[s].anims[t.prop as int] is Some => {
                        let n = self.nodes[s];
                        m.with_node(
                            s,
                            NodeModel {
                                overrides: n.overrides.update(
                                    t.prop as int,
                                    n.anims[t.prop as int],
                                ),
                                anims: n.anims.update(t.prop as int, None),
                                ..n
                            },
                        )
                    },
                    _ => m,
                }
            },
        }
    }
}

impl Scene {
    /// Starts an animation of a property from its present value.
    pub fn animate(
        &mut self,
        id: i32,
        prop: u8,
        to: u32,
        dur_ms: u32,
        easing: u8,
        delay_ms: u32,
    ) -> (anim: i32)
        requires
            old(self).wf(),
        ensures
            final(self).wf(),
            final(self).same_tables(*old(self)),
            (final(self)@, anim as int) == old(self)@.with_animation(
                old(self).rules(),
                id as int,
                prop,
                to,
                dur_ms,
                easing,
                delay_ms,
            ),
    {
        if self.props.anim_bits[prop as usize] == ANIM_NONE || easing > self.props.last_easing {
            return -1;
        }
        let slot: u32 = match self.tree.resolve(id) {
            Some(s) => s,
            None => return -1,
        };
        let s: usize = slot as usize;
        let ghost m = self@;
        let is_color: bool = self.props.kinds[prop as usize] == KIND_COLOR;
        let from: u32 = self.nodes[s].value(&self.styles, true, prop);
        let node: i32 = self.tree.id(slot);
        if !is_color {
            if (prop == self.props.width || prop == self.props.height) && (negative(from)
                || negative(to)) {
                return -1;
            }
            if nan(from) || nan(to) {
                self.put_prop(slot, prop, to);
                return -1;
            }
        }
        let hz: u32 = self.tick_hz;
        let anim: i32 = self.anims.spawn(
            TrackSpec { node, prop, is_color, explicit: true, from, to, dur_ms, easing, delay_ms, hz },
        );
        if anim > 0 {
            self.nodes[s].put_anim(prop, from);
        }
        proof {
            let (want, _a) = m.with_animation(
                self.rules(),
                id as int,
                prop,
                to,
                dur_ms,
                easing,
                delay_ms,
            );
            assert(self@.nodes =~= want.nodes);
            assert(self@ =~= want);
        }
        anim
    }

    /// Stops an animation. Its property keeps the value it has now.
    pub fn cancel_anim(&mut self, id: i32)
        requires
            old(self).wf(),
        ensures
            final(self).wf(),
            final(self).same_tables(*old(self)),
            final(self)@ == old(self)@.with_anim_cancelled(id as int),
    {
        let at: u32 = match self.anims.resolve(id) {
            Some(at) => at,
            None => return,
        };
        let ghost m = self@;
        let t = self.anims.tracks[at as usize];
        match self.tree.resolve(t.node) {
            Some(slot) => {
                let s: usize = slot as usize;
                match self.nodes[s].find_anim(t.prop) {
                    Some(v) => {
                        self.nodes[s].put_override(t.prop, v);
                        self.nodes[s].remove_anim(t.prop);
                    },
                    None => {},
                }
            },
            None => {},
        }
        self.anims.kill(at);
        proof {
            let want = m.with_anim_cancelled(id as int);
            assert(self@.nodes =~= want.nodes);
            assert(self@ =~= want);
        }
    }
}

// ---- laws ---------------------------------------------------------------------------------

/// A live track does what `spec` says.
pub open spec fn plays(tracks: Seq<Track>, spec: TrackSpec) -> bool {
    exists|i: int|
        0 <= i < tracks.len() && #[trigger] tracks[i] == crate::anim::started(spec, tracks[i].gen)
}

proof fn lemma_tweened(
    props: PropTable,
    tr: Transition,
    node: i32,
    old: Seq<u32>,
    target: Seq<u32>,
    hz: u32,
    tracks: Seq<Track>,
    anims: Seq<Option<u32>>,
    n: int,
)
    requires
        tracks_wf(tracks),
        0 <= n <= 256,
        tracks.len() + n <= id_space(),
        anims.len() == 256,
    ensures
        ({
            let (t, a) = tweened(props, tr, node, old, target, hz, tracks, anims, n);
            &&& tracks_wf(t)
            &&& t.len() <= tracks.len() + n
            &&& a.len() == 256
            &&& forall|p: u8|
                #![trigger a[p as int]]
                p < n && tweens(props, tr, p, old[p as int], target[p as int]) ==> a[p as int]
                    == Some(old[p as int]) && plays(
                    t,
                    tween(props, tr, node, p, old[p as int], target[p as int], hz),
                )
            &&& forall|p: u8|
                #![trigger a[p as int]]
                !(p < n && tweens(props, tr, p, old[p as int], target[p as int])) ==> a[p as int]
                    == anims[p as int]
        }),
    decreases n,
{
    if n > 0 {
        lemma_tweened(props, tr, node, old, target, hz, tracks, anims, n - 1);
        let (t, a) = tweened(props, tr, node, old, target, hz, tracks, anims, n - 1);
        let (t2, a2) = tweened(props, tr, node, old, target, hz, tracks, anims, n);
        let q = (n - 1) as u8;
        if tweens(props, tr, q, old[n - 1], target[n - 1]) {
            let spec = tween(props, tr, node, q, old[n - 1], target[n - 1], hz);
            lemma_spawned_wf(t, spec);
            law_spawned_track_runs(t, spec, 0);
            let (after, id) = spawned(t, spec);
            let loose = without_prop(t, node, q);
            let at = crate::anim::idle_from(loose, 1);
            crate::anim::lemma_idle_from(loose, 1);
            assert(id > 0);
            assert(after[at] == crate::anim::started(spec, after[at].gen));
            assert(plays(after, spec));
            assert forall|p: u8|
                #![trigger a2[p as int]]
                p < n && tweens(props, tr, p, old[p as int], target[p as int]) implies a2[p as int]
                == Some(old[p as int]) && plays(
                t2,
                tween(props, tr, node, p, old[p as int], target[p as int], hz),
            ) by {
                if p != q {
                    assert(a[p as int] == Some(old[p as int]));
                    let sp = tween(props, tr, node, p, old[p as int], target[p as int], hz);
                    let i = choose|i: int|
                        0 <= i < t.len() && #[trigger] t[i] == crate::anim::started(sp, t[i].gen);
                    law_spawned_track_runs(t, spec, i);
                    assert(t2[i] == crate::anim::started(sp, t2[i].gen));
                }
            }
        }
    }
}

/// When a change of style is animated, the property that moves shows its old
/// value at first, and a track takes it from there to the new one. This holds
/// as long as track ids do not run out.
pub proof fn law_transition_starts_at_the_old_look(
    m: SceneModel,
    r: Rules,
    s: int,
    old: Seq<u32>,
    tr: Transition,
    prop: u8,
)
    requires
        0 <= s < m.nodes.len(),
        m.nodes[s].anims.len() == 256,
        tracks_wf(m.tracks),
        m.tracks.len() + 256 <= id_space(),
        transition_of(r.styles, m.nodes[s].style_id) == Some(tr),
        tweens(
            r.props,
            tr,
            prop,
            old[prop as int],
            node_value(m.nodes[s], r.styles, false, prop),
        ),
    ensures
        ({
            let n = m.retargeted(r, s, old, true);
            let to = node_value(m.nodes[s], r.styles, false, prop);
            let node = m.tree.id_of(s) as i32;
            &&& node_value(n.nodes[s], r.styles, true, prop) == old[prop as int]
            &&& plays(n.tracks, tween(r.props, tr, node, prop, old[prop as int], to, r.hz))
        }),
{
    let n = m.retargeted(r, s, old, true);
    let node = m.tree.id_of(s) as i32;
    let target = node_values(m.nodes[s], r.styles, false);
    let from = old[prop as int];
    lemma_tweened(r.props, tr, node, old, target, r.hz, m.tracks, m.nodes[s].anims, 256);
    let (t, a) = tweened(r.props, tr, node, old, target, r.hz, m.tracks, m.nodes[s].anims, 256);
    assert(target[prop as int] == node_value(m.nodes[s], r.styles, false, prop));
    assert(a[prop as int] == Some(from));
    let spec = tween(r.props, tr, node, prop, from, target[prop as int], r.hz);
    let i = choose|i: int|
        0 <= i < t.len() && #[trigger] t[i] == crate::anim::started(spec, t[i].gen);
    assert(runs_on(t[i], node, prop));
    assert(some_runs_on(t, node, prop));
    assert(n.nodes[s].anims[prop as int] == Some(from));
}

/// After a change of style a property that no track runs on shows what the
/// node's style and the values set on it say.
pub proof fn law_style_shows_through(m: SceneModel, r: Rules, s: int, old: Seq<u32>, allow: bool, prop: u8)
    requires
        0 <= s < m.nodes.len(),
    ensures
        ({
            let n = m.retargeted(r, s, old, allow);
            !some_runs_on(n.tracks, m.tree.id_of(s) as i32, prop) ==> node_value(
                n.nodes[s],
                r.styles,
                true,
                prop,
            ) == node_value(m.nodes[s], r.styles, false, prop)
        }),
{
}

/// The first style of a node starts no animation.
pub proof fn law_first_style_is_not_animated(m: SceneModel, r: Rules, s: int, style_id: i32)
    requires
        0 <= s < m.nodes.len(),
        !m.nodes[s].initialized,
    ensures
        m.with_style(r, s, style_id).tracks == m.tracks,
        m.with_style(r, s, style_id).nodes[s].initialized,
{
}

/// A value that was set on a node shows at once and no animation of the
/// property is left; other properties look as before.
pub proof fn law_set_value_wins(m: SceneModel, r: Rules, s: int, prop: u8, bits: u32, other: u8)
    requires
        0 <= s < m.nodes.len(),
        m.nodes[s].anims.len() == 256,
        m.nodes[s].overrides.len() == 256,
        other != prop,
    ensures
        ({
            let n = m.with_prop(r, s, prop, bits);
            &&& node_value(n.nodes[s], r.styles, true, prop) == bits
            &&& !some_runs_on(n.tracks, m.tree.id_of(s) as i32, prop)
            &&& node_value(n.nodes[s], r.styles, true, other) == node_value(
                m.nodes[s],
                r.styles,
                true,
                other,
            )
        }),
{
}

/// An animation that a script starts begins at what the property shows.
pub proof fn law_animation_starts_where_it_is(
    m: SceneModel,
    r: Rules,
    id: int,
    prop: u8,
    to: u32,
    dur_ms: u32,
    easing: u8,
    delay_ms: u32,
)
    requires
        m.tree.resolves(id) is Some,
        0 <= m.tree.resolves(id)->0 < m.nodes.len(),
        m.nodes[m.tree.resolves(id)->0].anims.len() == 256,
        tracks_wf(m.tracks),
        m.with_animation(r, id, prop, to, dur_ms, easing, delay_ms).1 > 0,
    ensures
        ({
            let s = m.tree.resolves(id)->0;
            let (n, anim) = m.with_animation(r, id, prop, to, dur_ms, easing, delay_ms);
            &&& node_value(n.nodes[s], r.styles, true, prop) == node_value(
                m.nodes[s],
                r.styles,
                true,
                prop,
            )
            &&& Anims::place(n.tracks, anim) is Some
        }),
{
    let s = m.tree.resolves(id)->0;
    let from = node_value(m.nodes[s], r.styles, true, prop);
    let spec = TrackSpec {
        node: m.tree.id_of(s) as i32,
        prop,
        is_color: r.props.is_color(prop),
        explicit: true,
        from,
        to,
        dur_ms,
        easing,
        delay_ms,
        hz: r.hz,
    };
    law_spawned_track_runs(m.tracks, spec, 0);
}

/// Pressing a node whose style has nothing for that starts and ends no
/// animation.
pub proof fn law_press_without_variant(m: SceneModel, r: Rules, s: int, on: bool)
    requires
        !m.has_active(r, s),
    ensures
        m.with_active(r, s, on).tracks == m.tracks,
        m.with_active(r, s, on).layouts == m.layouts,
{
}

/// An id that names no node changes nothing.
pub proof fn law_stale_ids_change_nothing(
    m: SceneModel,
    r: Rules,
    id: int,
    other: int,
    handle: i32,
    known: bool,
    flag: bool,
    prop: u8,
    a: u32,
    b: u32,
    c: u32,
    easing: u8,
    now: u64,
)
    requires
        m.tree.resolves(id) is None,
    ensures
        Scene::moved(m, other, id, 0) == m,
        Scene::moved(m, id, other, 0) == m,
        Scene::removed(m, other, id) == m,
        Scene::removed(m, id, other) == m,
        !m.can_destroy(id),
        m.with_image(id, handle, known) == m,
        m.with_sprite(id, handle, known, a, b, c, now) == m,
        m.with_surface(id, handle, flag) == m,
        m.with_animation(r, id, prop, a, b, easing, c) == (m, -1int),
        id != 0 && i32::MIN <= id <= i32::MAX ==> m.focus_moved(r, id as i32) == m,
{
}

/// What of a change of style is animated: a property that changes and whose bit
/// is in the mask of the transition, unless it is a number with no way to the
/// other, as what is no number, and sizes below zero, are.
pub proof fn law_what_is_animated(props: PropTable, tr: Transition, prop: u8, from: u32, to: u32)
    ensures
        ({
            let bit = props.anim_bits@[prop as int];
            let color = props.kinds@[prop as int] == KIND_COLOR;
            let size = prop == props.width || prop == props.height;
            let stuck = |v: u32| !color && (is_nan(v) || size && below_zero(v));
            tweens(props, tr, prop, from, to) <==> bit < 32 && (tr.mask >> bit) % 2 == 1 && from != to
                && !stuck(from) && !stuck(to)
        }),
{
    let bit = props.anim_bits@[prop as int];
    let mask = tr.mask;
    if bit < 32 {
        assert(mask & (1u32 << bit) != 0 <==> (mask >> bit) % 2 == 1) by (bit_vector)
            requires
                bit < 32,
        ;
    }
}

/// The track of a transition takes the property of the node from the old look to
/// the new one, over the time of the transition, after its delay and along its
/// curve, at the rate of the clock.
pub proof fn law_transition_track(
    m: SceneModel,
    r: Rules,
    s: int,
    old: Seq<u32>,
    tr: Transition,
    prop: u8,
)
    requires
        0 <= s < m.nodes.len(),
        m.nodes[s].anims.len() == 256,
        tracks_wf(m.tracks),
        m.tracks.len() + 256 <= id_space(),
        transition_of(r.styles, m.nodes[s].style_id) == Some(tr),
        tweens(
            r.props,
            tr,
            prop,
            old[prop as int],
            node_value(m.nodes[s], r.styles, false, prop),
        ),
    ensures
        ({
            let n = m.retargeted(r, s, old, true);
            exists|i: int|
                0 <= i < n.tracks.len() && {
                    let t = #[trigger] n.tracks[i];
                    &&& t.alive && !t.explicit
                    &&& t.node == m.tree.id_of(s) as i32 && t.prop == prop
                    &&& t.from == old[prop as int]
                    &&& t.to == node_value(m.nodes[s], r.styles, false, prop)
                    &&& t.dur_ms == tr.dur_ms && t.delay_ms == tr.delay_ms && t.easing == tr.easing
                    &&& t.hz == r.hz
                    &&& t.is_color == (r.props.kinds@[prop as int] == KIND_COLOR)
                }
        }),
{
    law_transition_starts_at_the_old_look(m, r, s, old, tr, prop);
    let n = m.retargeted(r, s, old, true);
    let to = node_value(m.nodes[s], r.styles, false, prop);
    let spec = tween(
        r.props,
        tr,
        m.tree.id_of(s) as i32,
        prop,
        old[prop as int],
        to,
        r.hz,
    );
    let i = choose|i: int|
        0 <= i < n.tracks.len() && #[trigger] n.tracks[i] == crate::anim::started(
            spec,
            n.tracks[i].gen,
        );
    assert(n.tracks[i].alive);
}

/// A style stops the timelines of the node that it takes over and starts its own
/// behind all others; timelines of other nodes go on.
pub proof fn law_style_restarts_timelines(m: SceneModel, r: Rules, s: int, style: i32, k: int)
    requires
        0 <= s < m.nodes.len(),
        0 <= k < m.timelines.len(),
    ensures
        ({
            let n = m.with_style(r, s, style).timelines;
            let node = m.tree.id_of(s) as i32;
            let started = n.skip(m.timelines.len() as int);
            &&& n.len() >= m.timelines.len()
            &&& m.timelines[k].node == node ==> !n[k].alive
            &&& m.timelines[k].node != node ==> n[k] == m.timelines[k]
            &&& style < 0 || style >= r.styles.records@.len() ==> started.len() == 0
            &&& 0 <= style < r.styles.records@.len() ==> started == (
            match r.styles.records@[style as int].animation {
                Some(a) => new_lines(a.anims@, a.loop_frames, r.styles.anims@.len(), node),
                None => Seq::<TimelineInst>::empty(),
            })
        }),
{
    let n = m.with_style(r, s, style).timelines;
    let node = m.tree.id_of(s) as i32;
    let rest = stopped(m.timelines, node);
    let id = if style < 0 {
        (-1) as i32
    } else {
        style
    };
    match animation_of(r.styles, id) {
        Some(a) => {
            let own = new_lines(a.anims@, a.loop_frames, r.styles.anims@.len(), node);
            assert(n == rest + own);
            assert(n.skip(m.timelines.len() as int) =~= own);
        },
        None => {
            assert(n == rest);
            assert(n.skip(m.timelines.len() as int) =~= Seq::<TimelineInst>::empty());
        },
    }
}

/// An animation of a live node starts wherever a script may start it: on a
/// property that can be animated, along a curve that there is, between numbers,
/// and for sizes between ones not below zero, as long as a track is free. Where
/// one end is no number the value is set at once.
pub proof fn law_when_animations_start(
    m: SceneModel,
    r: Rules,
    id: int,
    prop: u8,
    to: u32,
    dur_ms: u32,
    easing: u8,
    delay_ms: u32,
)
    requires
        tracks_wf(m.tracks),
        m.tracks.len() < id_space(),
        m.tree.resolves(id) is Some,
        0 <= m.tree.resolves(id)->0 < m.nodes.len(),
        r.props.anim_bits@[prop as int] != ANIM_NONE,
        easing <= r.props.last_easing,
    ensures
        ({
            let s = m.tree.resolves(id)->0;
            let from = node_value(m.nodes[s], r.styles, true, prop);
            let color = r.props.kinds@[prop as int] == KIND_COLOR;
            let size = prop == r.props.width || prop == r.props.height;
            let (n, anim) = m.with_animation(r, id, prop, to, dur_ms, easing, delay_ms);
            &&& color ==> anim > 0
            &&& !color && !is_nan(from) && !is_nan(to) && !(size && (below_zero(from) || below_zero(
                to,
            ))) ==> anim > 0
            &&& !color && size && (below_zero(from) || below_zero(to)) ==> anim == -1 && n == m
            &&& !color && !size && (is_nan(from) || is_nan(to)) ==> anim == -1 && n == m.with_prop(
                r,
                s,
                prop,
                to,
            )
        }),
{
    let s = m.tree.resolves(id)->0;
    let spec = TrackSpec {
        node: m.tree.id_of(s) as i32,
        prop,
        is_color: r.props.is_color(prop),
        explicit: true,
        from: node_value(m.nodes[s], r.styles, true, prop),
        to,
        dur_ms,
        easing,
        delay_ms,
        hz: r.hz,
    };
    lemma_spawned_wf(m.tracks, spec);
    crate::anim::law_tracks_find_a_place(m.tracks, spec);
}

/// An animation is refused where a script may not start it: on a node that is not
/// there, on a property that cannot be animated, and along a curve that there is
/// not.
pub proof fn law_when_animations_are_refused(
    m: SceneModel,
    r: Rules,
    id: int,
    prop: u8,
    to: u32,
    dur_ms: u32,
    easing: u8,
    delay_ms: u32,
)
    requires
        m.tree.resolves(id) is None || r.props.anim_bits@[prop as int] == ANIM_NONE || easing
            > r.props.last_easing,
    ensures
        m.with_animation(r, id, prop, to, dur_ms, easing, delay_ms) == (m, -1int),
{
}

/// A node that is pressed, let go, focused or left goes to its new look along the
/// transition of its style, from the look that it shows.
pub proof fn law_looks_follow_transitions(
    m: SceneModel,
    r: Rules,
    s: int,
    tr: Transition,
    prop: u8,
    on: bool,
)
    requires
        0 <= s < m.nodes.len(),
        m.nodes[s].anims.len() == 256,
        tracks_wf(m.tracks),
        m.tracks.len() + 256 <= id_space(),
        transition_of(r.styles, m.nodes[s].style_id) == Some(tr),
    ensures
        ({
            let n = m.nodes[s];
            let from = node_value(n, r.styles, true, prop);
            let pressed = node_value(NodeModel { active: on, ..n }, r.styles, false, prop);
            let focused = node_value(NodeModel { focused: on, ..n }, r.styles, false, prop);
            &&& n.active != on && m.has_active(r, s) && tweens(r.props, tr, prop, from, pressed)
                ==> exists|i: int|
                #![trigger m.with_active(r, s, on).tracks[i]]
                0 <= i < m.with_active(r, s, on).tracks.len() && {
                    let t = m.with_active(r, s, on).tracks[i];
                    t.alive && t.node == m.tree.id_of(s) as i32 && t.prop == prop && t.from == from
                        && t.to == pressed
                }
            &&& tweens(r.props, tr, prop, from, focused) ==> exists|i: int|
                #![trigger m.with_focus(r, s, on).tracks[i]]
                0 <= i < m.with_focus(r, s, on).tracks.len() && {
                    let t = m.with_focus(r, s, on).tracks[i];
                    t.alive && t.node == m.tree.id_of(s) as i32 && t.prop == prop && t.from == from
                        && t.to == focused
                }
        }),
{
    let n = m.nodes[s];
    let old = node_values(n, r.styles, true);
    let a = m.with_node(s, NodeModel { active: on, ..n });
    let f = m.with_node(s, NodeModel { focused: on, ..n });
    let from = node_value(n, r.styles, true, prop);
    assert(old[prop as int] == from);
    let pressed = node_value(a.nodes[s], r.styles, false, prop);
    let focused = node_value(f.nodes[s], r.styles, false, prop);
    if n.active != on && m.has_active(r, s) && tweens(r.props, tr, prop, from, pressed) {
        law_transition_track(a, r, s, old, tr, prop);
        assert(m.with_active(r, s, on).tracks == a.retargeted(r, s, old, true).tracks);
    }
    if tweens(r.props, tr, prop, from, focused) {
        law_transition_track(f, r, s, old, tr, prop);
        assert(m.with_focus(r, s, on).tracks == f.retargeted(r, s, old, true).tracks);
    }
}

/// An animation that is cancelled ends where it is: the node keeps showing what it
/// shows, now as a value that was set on it.
pub proof fn law_cancelled_animations_stay_where_they_are(m: SceneModel, styles: StyleTable, id: int, s: int)
    requires
        Anims::place(m.tracks, id) is Some,
        ({
            let t = m.tracks[Anims::place(m.tracks, id)->0];
            &&& m.tree.resolves(t.node as int) == Some(s)
            &&& 0 <= s < m.nodes.len()
            &&& m.nodes[s].anims.len() == 256
            &&& m.nodes[s].overrides.len() == 256
            &&& m.nodes[s].anims[t.prop as int] is Some
        }),
    ensures
        ({
            let at = Anims::place(m.tracks, id)->0;
            let p = m.tracks[at].prop;
            let n = m.with_anim_cancelled(id);
            &&& forall|q: u8|
                #[trigger] node_value(n.nodes[s], styles, true, q) == node_value(
                    m.nodes[s],
                    styles,
                    true,
                    q,
                )
            &&& n.nodes[s].overrides[p as int] == m.nodes[s].anims[p as int]
            &&& n.nodes[s].anims[p as int] is None
            &&& !n.tracks[at].alive
            &&& forall|i: int|
                0 <= i < m.tracks.len() && i != at ==> #[trigger] n.tracks[i] == m.tracks[i]
        }),
{
}

} // verus!
