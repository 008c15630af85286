//! How nodes look: which value of a property shows, and which node has the
//! focus.
use crate::anim::{law_spawned_track_runs, runs_on, some_runs_on, spawned, tracks_wf, Track};
use crate::bridge::Command;
use crate::frames::{in_order, lemma_lines_played, lemma_tracks_stepped};
use crate::playback::TrackStep;
use crate::restyle::{backed, transition_of, tween, tweened, tweens, Rules};
use crate::scene::{node_value, node_values, NodeModel, Scene, SceneModel};
use crate::style::{lookup, PropTable, StyleRecord, StyleTable, Transition};
use crate::tree::{law_destroy_takes_the_subtree, TreeModel};
use crate::ui::UiModel;
use vstd::prelude::*;

verus! {

// ---- which value shows ------------------------------------------------------------------------

/// A list gives a property the value of its first entry for it, and none where
/// it has no entry for it.
pub proof fn law_first_entry_counts(entries: Seq<(u8, u32)>, prop: u8, i: int)
    ensures
        0 <= i < entries.len() && entries[i].0 == prop && (forall|k: int|
            0 <= k < i ==> (#[trigger] entries[k]).0 != prop) ==> lookup(entries, prop) == Some(
            entries[i].1,
        ),
        (forall|k: int| 0 <= k < entries.len() ==> (#[trigger] entries[k]).0 != prop) ==> lookup(
            entries,
            prop,
        ) is None,
    decreases entries.len(),
{
    if entries.len() > 0 {
        let rest = entries.drop_first();
        law_first_entry_counts(rest, prop, i - 1);
        assert(entries[0] == entries[0]);
        assert forall|k: int| 0 <= k < rest.len() implies #[trigger] rest[k] == entries[k + 1] by {}
    }
}

/// What shows of a property, from the strongest to the weakest: an animation,
/// what was set on the node, what its style has for when it is pressed while it
/// is, what its style has for the focus while it has it, what its style has at
/// all times, and the default.
pub proof fn law_what_shows(n: NodeModel, table: StyleTable, rec: StyleRecord, prop: u8)
    requires
        table.record_of(n.style_id) == Some(rec),
    ensures
        ({
            let shown = node_value(n, table, true, prop);
            let (anim, set) = (n.anims[prop as int], n.overrides[prop as int]);
            let pressed = lookup(rec.active@, prop);
            let focus = lookup(rec.focus@, prop);
            let base = lookup(rec.base@, prop);
            let plain = anim is None && set is None;
            &&& anim matches Some(v) ==> shown == v
            &&& anim is None ==> (set matches Some(v) ==> shown == v)
            &&& plain && n.active ==> (pressed matches Some(v) ==> shown == v)
            &&& plain && (!n.active || pressed is None) && n.focused ==> (focus matches Some(v)
                ==> shown == v)
            &&& plain && (!n.active || pressed is None) && (!n.focused || focus is None) ==> shown
                == (match base {
                Some(v) => v,
                None => table.defaults@[prop as int],
            })
        }),
{
}

/// A node without a style shows what was set on it, and defaults.
pub proof fn law_what_shows_unstyled(n: NodeModel, table: StyleTable, prop: u8)
    requires
        n.style_id < 0 || n.style_id >= table.records@.len(),
    ensures
        n.anims[prop as int] is None && n.overrides[prop as int] is None ==> node_value(
            n,
            table,
            true,
            prop,
        ) == table.defaults@[prop as int],
{
}

/// The record of a style is the one with its number.
pub proof fn law_style_ids_are_places(table: StyleTable, id: i32)
    ensures
        0 <= id < table.records@.len() ==> table.record_of(id) == Some(table.records@[id as int]),
        id < 0 || id >= table.records@.len() ==> table.record_of(id) is None,
{
}

// ---- the focus ----------------------------------------------------------------------------------

/// Of the nodes that are there the one with the focus is marked so, and no
/// other; without it none is.
pub open spec fn one_focus(m: SceneModel) -> bool {
    &&& forall|s: int|
        #![trigger m.nodes[s]]
        m.tree.alive(s) ==> (m.nodes[s].focused <==> m.focused == m.tree.id_of(s))
    &&& m.focused != 0 ==> m.tree.resolves(m.focused as int) is Some
}

/// A scene whose tree is in order and has a node in each place.
pub open spec fn sound(m: SceneModel) -> bool {
    m.tree.slots_wf() && m.tree.is_tree() && in_order(m)
}

/// The model of a valid scene is sound.
pub proof fn law_scenes_are_sound(scene: Scene)
    requires
        scene.wf(),
    ensures
        sound(scene@),
{
    assert(scene@.tree.linked(scene.tree.depth@));
}

proof fn lemma_ids(t: TreeModel, s: int)
    requires
        t.slots_wf(),
        t.alive(s),
    ensures
        0 < t.id_of(s) <= i32::MAX,
        t.resolves(t.id_of(s)) == Some(s),
{
    assert((t.links[s].gen as int) < 0x8000);
    assert(t.links[s].alive);
    assert(s != 0);
}

pub proof fn lemma_retargeted(m: SceneModel, r: Rules, s: int, old: Seq<u32>, allow: bool)
    requires
        0 <= s < m.nodes.len(),
    ensures
        ({
            let n = m.retargeted(r, s, old, allow);
            &&& n.tree == m.tree && n.focused == m.focused && n.timelines == m.timelines
            &&& n.layouts == m.layouts
            &&& n.nodes.len() == m.nodes.len()
            &&& n.nodes[s] == (NodeModel { anims: n.nodes[s].anims, ..m.nodes[s] })
            &&& forall|o: int|
                #![trigger n.nodes[o]]
                0 <= o < m.nodes.len() && o != s ==> n.nodes[o] == m.nodes[o]
        }),
{
}

/// Moving the focus marks the node that gets it and no other; taking it away
/// leaves no node marked. An id that names no node changes nothing.
pub proof fn law_focus_is_on_one_node(m: SceneModel, r: Rules, id: i32, s: int)
    requires
        sound(m),
        one_focus(m),
        m.tree.alive(s),
    ensures
        ({
            let n = m.focus_moved(r, id);
            &&& id == 0 || m.tree.resolves(id as int) is Some ==> n.focused == id && (
            n.nodes[s].focused <==> id == m.tree.id_of(s))
            &&& id != 0 && m.tree.resolves(id as int) is None ==> n == m
            &&& n.tree == m.tree
            &&& one_focus(n)
        }),
{
    let n = m.focus_moved(r, id);
    let t = m.tree;
    lemma_ids(t, s);
    assert(m.nodes[s].focused <==> m.focused == t.id_of(s));
    if id != m.focused && (id == 0 || t.resolves(id as int) is Some) {
        let base = SceneModel { focused: id, ..m };
        let from = t.resolves(m.focused as int);
        let left = match from {
            Some(o) => base.with_focus(r, o, false),
            None => base,
        };
        if from is Some {
            let o = from->0;
            lemma_ids(t, o);
            lemma_retargeted(
                base.with_node(o, NodeModel { focused: false, ..m.nodes[o] }),
                r,
                o,
                node_values(m.nodes[o], r.styles, true),
                true,
            );
        }
        assert(t.resolves(0) is None);
        let to = t.resolves(id as int);
        if to is Some {
            let o = to->0;
            lemma_ids(t, o);
            lemma_retargeted(
                left.with_node(o, NodeModel { focused: true, ..left.nodes[o] }),
                r,
                o,
                node_values(left.nodes[o], r.styles, true),
                true,
            );
        }
        assert forall|k: int| #![trigger n.nodes[k]] t.alive(k) implies (n.nodes[k].focused <==> id
            == t.id_of(k)) by {
            lemma_ids(t, k);
            assert(m.nodes[k].focused <==> m.focused == t.id_of(k));
        }
    }
}

proof fn lemma_tweened_elsewhere(
    props: PropTable,
    tr: Transition,
    node: i32,
    old: Seq<u32>,
    target: Seq<u32>,
    hz: u32,
    tracks: Seq<Track>,
    anims: Seq<Option<u32>>,
    n: int,
    other: i32,
    prop: u8,
)
    requires
        tracks_wf(tracks),
        0 <= n <= 256,
        other != node,
    ensures
        ({
            let (t, _a) = tweened(props, tr, node, old, target, hz, tracks, anims, n);
            &&& tracks_wf(t)
            &&& some_runs_on(tracks, other, prop) ==> some_runs_on(t, other, prop)
        }),
    decreases n,
{
    if n > 0 {
        lemma_tweened_elsewhere(
            props,
            tr,
            node,
            old,
            target,
            hz,
            tracks,
            anims,
            n - 1,
            other,
            prop,
        );
        let (t, _a) = tweened(props, tr, node, old, target, hz, tracks, anims, n - 1);
        let p = (n - 1) as u8;
        if tweens(props, tr, p, old[n - 1], target[n - 1]) {
            let spec = tween(props, tr, node, p, old[n - 1], target[n - 1], hz);
            crate::anim::lemma_spawned_wf(t, spec);
            let after = spawned(t, spec).0;
            if some_runs_on(t, other, prop) {
                let i = choose|i: int| 0 <= i < t.len() && runs_on(#[trigger] t[i], other, prop);
                law_spawned_track_runs(t, spec, i);
                let loose = crate::anim::without_prop(t, node, p);
                crate::anim::lemma_idle_from(loose, 1);
                assert(loose[i] == t[i]);
                assert(runs_on(after[i], other, prop));
            }
        }
    }
}

/// The node that loses the focus shows, where no track runs on a property, what
/// its style says without the focus; the one that gets it what its style says
/// with it.
#[verifier::rlimit(50)]
pub proof fn law_focus_shows(m: SceneModel, r: Rules, id: i32, from: int, to: int, prop: u8)
    requires
        sound(m),
        one_focus(m),
        id != m.focused,
        m.tree.resolves(m.focused as int) == Some(from),
        m.tree.resolves(id as int) == Some(to),
    ensures
        ({
            let n = m.focus_moved(r, id);
            let (a, b) = (m.tree.id_of(from) as i32, m.tree.id_of(to) as i32);
            &&& !some_runs_on(n.tracks, a, prop) ==> node_value(
                n.nodes[from],
                r.styles,
                true,
                prop,
            ) == node_value(
                NodeModel { focused: false, ..m.nodes[from] },
                r.styles,
                false,
                prop,
            )
            &&& !some_runs_on(n.tracks, b, prop) ==> node_value(n.nodes[to], r.styles, true, prop)
                == node_value(NodeModel { focused: true, ..m.nodes[to] }, r.styles, false, prop)
        }),
{
    let t = m.tree;
    let (a, b) = (t.id_of(from) as i32, t.id_of(to) as i32);
    lemma_ids(t, from);
    lemma_ids(t, to);
    let base = SceneModel { focused: id, ..m };
    let off = base.with_node(from, NodeModel { focused: false, ..m.nodes[from] });
    let old = node_values(m.nodes[from], r.styles, true);
    lemma_retargeted(off, r, from, old, true);
    let left = base.with_focus(r, from, false);
    let on = left.with_node(to, NodeModel { focused: true, ..left.nodes[to] });
    let was = node_values(left.nodes[to], r.styles, true);
    lemma_retargeted(on, r, to, was, true);
    let n = m.focus_moved(r, id);
    assert(n.nodes[from] == left.nodes[from]);
    assert(left.nodes[to] == m.nodes[to]);
    match transition_of(r.styles, off.nodes[from].style_id) {
        Some(tr) => {
            lemma_tweened_same(
                r.props,
                tr,
                a,
                old,
                node_values(off.nodes[from], r.styles, false),
                r.hz,
                m.tracks,
                off.nodes[from].anims,
                256,
            );
        },
        None => {},
    }
    assert(tracks_wf(left.tracks));
    match transition_of(r.styles, on.nodes[to].style_id) {
        Some(tr) => {
            lemma_tweened_elsewhere(
                r.props,
                tr,
                b,
                was,
                node_values(on.nodes[to], r.styles, false),
                r.hz,
                left.tracks,
                on.nodes[to].anims,
                256,
                a,
                prop,
            );
        },
        None => {},
    }
}

proof fn lemma_tweened_same(
    props: PropTable,
    tr: Transition,
    node: i32,
    old: Seq<u32>,
    target: Seq<u32>,
    hz: u32,
    tracks: Seq<Track>,
    anims: Seq<Option<u32>>,
    n: int,
)
    requires
        tracks_wf(tracks),
        0 <= n <= 256,
    ensures
        ({
            let (t, _a) = tweened(props, tr, node, old, target, hz, tracks, anims, n);
            tracks_wf(t)
        }),
    decreases n,
{
    if n > 0 {
        lemma_tweened_same(props, tr, node, old, target, hz, tracks, anims, n - 1);
        let (t, _a) = tweened(props, tr, node, old, target, hz, tracks, anims, n - 1);
        let p = (n - 1) as u8;
        if tweens(props, tr, p, old[n - 1], target[n - 1]) {
            let spec = tween(props, tr, node, p, old[n - 1], target[n - 1], hz);
            crate::anim::lemma_spawned_wf(t, spec);
        }
    }
}

// ---- the focus over all operations ------------------------------------------------------------------

/// Two scenes have the same nodes under the same ids, and the same focus.
pub open spec fn same_focus(a: SceneModel, b: SceneModel) -> bool {
    &&& a.tree.links.len() == b.tree.links.len()
    &&& a.nodes.len() == b.nodes.len()
    &&& a.focused == b.focused
    &&& forall|s: int|
        #![trigger b.tree.links[s]]
        #![trigger b.nodes[s]]
        0 <= s < a.tree.links.len() ==> a.tree.links[s].alive == b.tree.links[s].alive
            && a.tree.links[s].gen == b.tree.links[s].gen && (a.nodes[s].focused
            == b.nodes[s].focused)
}

proof fn lemma_same_focus(a: SceneModel, b: SceneModel)
    requires
        one_focus(a),
        same_focus(a, b),
    ensures
        one_focus(b),
{
    assert forall|s: int| #![trigger b.nodes[s]] b.tree.alive(s) implies (b.nodes[s].focused
        <==> b.focused == b.tree.id_of(s)) by {
        assert(b.tree.links[s].alive);
        assert(a.nodes[s].focused <==> a.focused == a.tree.id_of(s));
    }
    if b.focused != 0 {
        let s = a.tree.resolves(a.focused as int)->0;
        assert(b.tree.links[s].alive);
    }
}

proof fn lemma_created_focus(m: SceneModel, kind: u8)
    requires
        sound(m),
        one_focus(m),
        Scene::created(m, kind) is Some,
    ensures
        ({
            let (n, _s) = Scene::created(m, kind)->0;
            one_focus(n)
        }),
{
    let (n, s) = Scene::created(m, kind)->0;
    crate::tree::law_new_ids_are_fresh(m.tree, m.focused as int);
    assert forall|k: int| #![trigger n.nodes[k]] n.tree.alive(k) implies (n.nodes[k].focused
        <==> n.focused == n.tree.id_of(k)) by {
        if k == s {
            if m.focused != 0 {
                assert(m.tree.resolves(m.focused as int) is Some);
            }
        } else {
            assert(m.tree.alive(k));
            assert(m.nodes[k].focused <==> m.focused == m.tree.id_of(k));
        }
    }
}

proof fn lemma_moves_keep_focus(m: SceneModel, parent: int, child: int, anchor: int)
    requires
        sound(m),
        one_focus(m),
    ensures
        one_focus(Scene::moved(m, parent, child, anchor)),
        one_focus(Scene::removed(m, parent, child)),
{
    let t = m.tree;
    if t.resolves(child) is Some {
        let c = t.resolves(child)->0;
        assert(t.links[c].parent is Some ==> t.alive(t.links[c].parent->0));
    }
    let n = Scene::moved(m, parent, child, anchor);
    assert(same_focus(m, n));
    lemma_same_focus(m, n);
    let n = Scene::removed(m, parent, child);
    assert(same_focus(m, n));
    lemma_same_focus(m, n);
}

proof fn lemma_styles_keep_focus(m: SceneModel, r: Rules, s: int, style: i32, on: bool)
    requires
        sound(m),
        one_focus(m),
        m.tree.alive(s),
    ensures
        one_focus(m.with_style(r, s, style)),
        one_focus(m.with_active(r, s, on)),
{
    let n = m.nodes[s];
    let sid = if style < 0 {
        (-1) as i32
    } else {
        style
    };
    let old = node_values(n, r.styles, true);
    let styled = m.with_node(s, NodeModel { style_id: sid, initialized: true, ..n });
    lemma_retargeted(styled, r, s, old, n.initialized);
    let b = m.with_style(r, s, style);
    assert(same_focus(m, b));
    lemma_same_focus(m, b);
    let pressed = m.with_node(s, NodeModel { active: on, ..n });
    lemma_retargeted(pressed, r, s, old, true);
    let b = m.with_active(r, s, on);
    assert(same_focus(m, b));
    lemma_same_focus(m, b);
}

proof fn lemma_values_keep_focus(
    m: SceneModel,
    r: Rules,
    id: int,
    prop: u8,
    bits: u32,
    dur: u32,
    easing: u8,
    delay: u32,
)
    requires
        sound(m),
        one_focus(m),
    ensures
        m.tree.resolves(id) matches Some(s) ==> one_focus(m.with_prop(r, s, prop, bits)),
        ({
            let (n, _anim) = m.with_animation(r, id, prop, bits, dur, easing, delay);
            one_focus(n)
        }),
        one_focus(m.with_anim_cancelled(id)),
{
    if m.tree.resolves(id) is Some {
        let b = m.with_prop(r, m.tree.resolves(id)->0, prop, bits);
        assert(same_focus(m, b));
        lemma_same_focus(m, b);
    }
    let (b, _anim) = m.with_animation(r, id, prop, bits, dur, easing, delay);
    assert(same_focus(m, b));
    lemma_same_focus(m, b);
    let b = m.with_anim_cancelled(id);
    assert(same_focus(m, b));
    lemma_same_focus(m, b);
}

proof fn lemma_images_keep_focus(
    m: SceneModel,
    id: int,
    tex: i32,
    known: bool,
    frames: u32,
    cols: u32,
    step: u32,
    now: u64,
)
    requires
        sound(m),
        one_focus(m),
    ensures
        one_focus(m.with_image(id, tex, known)),
        one_focus(m.with_sprite(id, tex, known, frames, cols, step, now)),
{
    let b = m.with_image(id, tex, known);
    assert(same_focus(m, b));
    lemma_same_focus(m, b);
    let b = m.with_sprite(id, tex, known, frames, cols, step, now);
    assert(same_focus(m, b));
    lemma_same_focus(m, b);
}

/// No operation of a script marks a second node as the one with the focus or
/// loses the mark.
#[verifier::rlimit(50)]
pub proof fn law_commands_keep_one_focus(m: UiModel, c: Command)
    requires
        sound(m.scene),
        one_focus(m.scene),
    ensures
        ({
            let (n, _answer) = m.ran(c);
            one_focus(n.scene)
        }),
{
    let a = m.scene;
    let r = m.rules;
    match c {
        Command::CreateNode(kind) => if Scene::created(a, kind) is Some {
            lemma_created_focus(a, kind);
        },
        Command::InsertBefore(parent, child, anchor) => {
            lemma_moves_keep_focus(a, parent as int, child as int, anchor as int);
        },
        Command::RemoveChild(parent, child) => {
            lemma_moves_keep_focus(a, parent as int, child as int, 0);
        },
        Command::SetFocus(id) => {
            law_focus_is_on_one_node(a, r, id, 1);
        },
        Command::SetStyle(id, style) => if a.tree.resolves(id as int) is Some {
            lemma_styles_keep_focus(a, r, a.tree.resolves(id as int)->0, style, true);
        },
        Command::SetActive(id, on) => if a.tree.resolves(id as int) is Some {
            lemma_styles_keep_focus(a, r, a.tree.resolves(id as int)->0, 0, on);
        },
        Command::SetProp(id, prop, bits) => {
            lemma_values_keep_focus(a, r, id as int, prop, bits, 0, 0, 0);
        },
        Command::Animate(id, prop, to, dur, easing, delay) => {
            lemma_values_keep_focus(a, r, id as int, prop, to, dur, easing, delay);
        },
        Command::CancelAnim(id) => {
            lemma_values_keep_focus(a, r, id as int, 0, 0, 0, 0, 0);
        },
        Command::SetImage(id, tex) => {
            let known = crate::texture::resolves(m.table.slots, tex as int) is Some;
            lemma_images_keep_focus(a, id as int, tex, known, 0, 0, 0, 0);
        },
        Command::SetSprite(id, tex, frames, cols, step) => {
            let known = crate::texture::resolves(m.table.slots, tex as int) is Some;
            lemma_images_keep_focus(a, id as int, tex, known, frames, cols, step, m.frame);
        },
        _ => {},
    }
}

/// Destroying nodes takes the focus away with its node, and keeps it otherwise.
pub proof fn law_destroying_keeps_one_focus(
    m: SceneModel,
    depth: Seq<nat>,
    top: int,
    list: Seq<u32>,
    n: SceneModel,
)
    requires
        sound(m),
        m.tree.linked(depth),
        one_focus(m),
        m.tree.alive(top),
        top != crate::tree::root_slot(),
        m.destroyed(top, list, n),
    ensures
        one_focus(n),
{
    if m.focused != 0 {
        let f = m.tree.resolves(m.focused as int)->0;
        lemma_ids(m.tree, f);
        assert(m.tree.id_of(f) == m.focused);
        law_destroy_takes_the_subtree(m.tree, depth, top, list, n.tree, f);
    }
    assert forall|s: int| #![trigger n.nodes[s]] n.tree.alive(s) implies (n.nodes[s].focused
        <==> n.focused == n.tree.id_of(s)) by {
        let d = m.tree.detached(top);
        assert(!list.contains(s as u32));
        assert(d.links[s].alive == m.tree.links[s].alive && d.links[s].gen == m.tree.links[s].gen);
        assert(m.tree.alive(s));
        lemma_ids(m.tree, s);
        law_destroy_takes_the_subtree(m.tree, depth, top, list, n.tree, s);
        assert(m.nodes[s].focused <==> m.focused == m.tree.id_of(s));
        if m.focused != 0 {
            let f = m.tree.resolves(m.focused as int)->0;
            assert(m.nodes[f].focused <==> m.focused == m.tree.id_of(f));
        }
    }
}

proof fn lemma_steps_keep_focus(m: SceneModel, props: PropTable, steps: Seq<TrackStep>, n: int)
    requires
        in_order(m),
        0 <= n <= m.tracks.len(),
    ensures
        same_focus(m, m.tracks_stepped(props, steps, n)),
    decreases n,
{
    if n > 0 {
        lemma_steps_keep_focus(m, props, steps, n - 1);
        lemma_tracks_stepped(m, props, steps, n - 1);
        let a = m.tracks_stepped(props, steps, n - 1);
        let b = m.tracks_stepped(props, steps, n);
        assert forall|s: int|
            #![trigger b.tree.links[s]]
            #![trigger b.nodes[s]]
            0 <= s < m.tree.links.len() implies m.tree.links[s].alive == b.tree.links[s].alive
            && m.tree.links[s].gen == b.tree.links[s].gen && (m.nodes[s].focused
            == b.nodes[s].focused) by {
            assert(a.nodes[s].focused == m.nodes[s].focused);
        }
    }
}

/// Frames keep the focus where it is.
pub proof fn law_frames_keep_one_focus(
    m: SceneModel,
    styles: StyleTable,
    props: PropTable,
    steps: Seq<TrackStep>,
)
    requires
        sound(m),
        one_focus(m),
        steps.len() == m.tracks.len(),
    ensures
        m.ticked(styles, props, steps).focused == m.focused,
        one_focus(m.ticked(styles, props, steps)),
{
    let n = steps.len() as int;
    let stepped = m.tracks_stepped(props, steps, n);
    lemma_steps_keep_focus(m, props, steps, n);
    lemma_tracks_stepped(m, props, steps, n);
    let b = m.ticked(styles, props, steps);
    lemma_lines_played(stepped, styles, props, 0, 1, 0);
    lemma_played_focus(stepped, styles, props, 0);
    assert forall|s: int|
        #![trigger b.tree.links[s]]
        #![trigger b.nodes[s]]
        0 <= s < m.tree.links.len() implies m.tree.links[s].alive == b.tree.links[s].alive
        && m.tree.links[s].gen == b.tree.links[s].gen && (m.nodes[s].focused
        == b.nodes[s].focused) by {
        lemma_lines_played(stepped, styles, props, 0, s, 0);
        assert(stepped.nodes[s].focused == m.nodes[s].focused);
    }
    assert(same_focus(m, b));
    lemma_same_focus(m, b);
}

proof fn lemma_played_focus(m: SceneModel, styles: StyleTable, props: PropTable, i: int)
    requires
        0 <= i <= m.timelines.len(),
    ensures
        m.lines_played(styles, props, i).focused == m.focused,
    decreases m.timelines.len() - i,
{
    if i < m.timelines.len() {
        let node = m.timelines[i].node;
        crate::playback::lemma_batch_end(m.timelines, node, i);
        crate::playback::lemma_batch_end(m.timelines, node, i + 1);
        let end = crate::playback::batch_end(m.timelines, node, i);
        if !m.timelines[i].alive {
            lemma_played_focus(m, styles, props, i + 1);
        } else {
            lemma_played_focus(m.batch_played(styles, props, i, end), styles, props, end);
        }
    }
}

/// Setting a text, the size of a surface or a composited surface keeps the focus
/// where it is, and a new interface has none.
pub proof fn law_the_rest_keeps_one_focus(
    m: UiModel,
    id: int,
    s: int,
    text: Seq<char>,
    size: (u32, u32),
    surface: i32,
    on: bool,
    props: PropTable,
    density: u32,
)
    requires
        sound(m.scene),
        one_focus(m.scene),
        m.scene.tree.alive(s),
        m.scene.layouts.aux matches Some((root, _l)) ==> m.scene.tree.resolves(
            root as int,
        ) is Some,
    ensures
        one_focus(m.scene.with_text(m.rules, s, text)),
        one_focus(m.with_viewport(size).scene),
        one_focus(m.scene.with_surface(id, surface, on)),
        ({
            let (n, _root) = m.scene.with_auxiliary(m.rules.props, size);
            one_focus(n)
        }),
        m.is_new(props, density) ==> m.scene.focused == 0,
{
    let a = m.scene;
    lemma_same_focus(a, a.with_text(m.rules, s, text));
    assert(a.tree.alive(1));
    lemma_same_focus(a, m.with_viewport(size).scene);
    lemma_same_focus(a, a.with_surface(id, surface, on));
    let (n, _root) = a.with_auxiliary(m.rules.props, size);
    match a.layouts.aux {
        Some((root, _l)) => {
            lemma_same_focus(a, n);
        },
        None => if Scene::created(a, crate::constants::NODE_VIEW) is Some {
            lemma_created_focus(a, crate::constants::NODE_VIEW);
            let (c, _at) = Scene::created(a, crate::constants::NODE_VIEW)->0;
            lemma_same_focus(c, n);
        },
    }
}

} // verus!
