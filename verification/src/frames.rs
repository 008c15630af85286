//! What frames make of an animation that is over, and what they leave as it is.
use crate::anim::{ended, tracks_wf, Anims};
use crate::playback::{
    alive_lines, batch_end, lemma_batch_end, line_after, line_time, line_value, lines_over,
    plays_on, silent, tracks_over, written, TrackStep,
};
use crate::scene::{node_value, NodeModel, Scene, SceneModel, TimelineInst};
use crate::style::{PropTable, StyleTable, Timeline};
use crate::tree::{id_space, TreeModel};
use crate::ui::UiModel;
use vstd::prelude::*;

verus! {

// ---- model ------------------------------------------------------------------------------

/// There is a node for every place in the tree, with room for a value of every
/// property, and tracks are in order.
pub open spec fn in_order(m: SceneModel) -> bool {
    &&& tracks_wf(m.tracks)
    &&& m.nodes.len() == m.tree.links.len()
    &&& forall|s: int|
        #![trigger m.nodes[s]]
        0 <= s < m.nodes.len() ==> m.nodes[s].anims.len() == 256 && m.nodes[s].overrides.len()
            == 256
}

/// Two nodes have the same style and the same value set for a property.
pub open spec fn same_base(a: NodeModel, b: NodeModel, prop: u8) -> bool {
    &&& (a.style_id, a.focused, a.active) == (b.style_id, b.focused, b.active)
    &&& a.overrides[prop as int] == b.overrides[prop as int]
}

/// Two nodes have the same value of a property from the same source.
pub open spec fn alike(a: NodeModel, b: NodeModel, prop: u8) -> bool {
    same_base(a, b, prop) && a.anims[prop as int] == b.anims[prop as int]
}

/// The track in place `k` runs on a property of the node in slot `s`.
pub open spec fn moves(m: SceneModel, k: int, s: int, prop: u8) -> bool {
    m.tracks[k].alive && m.tracks[k].prop == prop && m.tree.resolves(m.tracks[k].node as int)
        == Some(s)
}

/// A timeline has a track for a property.
pub open spec fn animates(tl: Timeline, prop: u8) -> bool {
    exists|k: int| 0 <= k < tl.tracks@.len() && (#[trigger] tl.tracks@[k]).prop == prop
}

/// A timeline has a track for a property of the node in slot `s`: it writes a
/// value of it, or that it has none.
pub open spec fn writes(tree: TreeModel, styles: StyleTable, inst: TimelineInst, s: int, prop: u8) -> bool {
    plays_on(styles, inst) && tree.resolves(inst.node as int) == Some(s) && animates(
        styles.anims@[inst.anim as int],
        prop,
    )
}

/// No timeline of the node in slot `s` has a track for a property.
pub open spec fn unwritten(m: SceneModel, styles: StyleTable, s: int, prop: u8) -> bool {
    forall|k: int|
        #![trigger m.timelines[k]]
        0 <= k < m.timelines.len() ==> !writes(m.tree, styles, m.timelines[k], s, prop)
}

/// No timeline of the node in slot `s` has a value for a property in the next
/// frame.
pub open spec fn quiet(m: SceneModel, styles: StyleTable, s: int, prop: u8) -> bool {
    forall|k: int|
        #![trigger m.timelines[k]]
        0 <= k < m.timelines.len() && m.tree.resolves(m.timelines[k].node as int) == Some(s)
            ==> silent(styles, m.timelines[k], prop)
}

/// No track runs on a property of the node in slot `s`.
pub open spec fn trackless(m: SceneModel, s: int, prop: u8) -> bool {
    forall|k: int| 0 <= k < m.tracks.len() ==> !#[trigger] moves(m, k, s, prop)
}

/// An animated value of a property comes from a timeline.
pub open spec fn accounted(m: SceneModel, styles: StyleTable, s: int, prop: u8) -> bool {
    m.nodes[s].anims[prop as int] is Some ==> !unwritten(m, styles, s, prop)
}

/// Every frame says where each of `n` tracks is.
pub open spec fn frames_fit(frames: Seq<Seq<TrackStep>>, n: nat) -> bool {
    forall|k: int| 0 <= k < frames.len() ==> (#[trigger] frames[k]).len() == n
}

impl UiModel {
    /// The interface after these frames.
    pub open spec fn after_frames(self, frames: Seq<Seq<TrackStep>>) -> UiModel
        decreases frames.len(),
    {
        if frames.len() == 0 {
            self
        } else {
            self.after_frames(frames.drop_last()).ticked(frames.last())
        }
    }
}

/// In the last of these frames that goes ahead, if any does, no timeline of the
/// node in slot `s` has a value for a property.
pub open spec fn ends_quiet(m: UiModel, frames: Seq<Seq<TrackStep>>, s: int, prop: u8) -> bool
    decreases frames.len(),
{
    if frames.len() == 0 {
        true
    } else {
        let before = m.after_frames(frames.drop_last());
        if before.advances() {
            quiet(before.scene, m.rules.styles, s, prop)
        } else {
            ends_quiet(m, frames.drop_last(), s, prop)
        }
    }
}

// ---- one frame ----------------------------------------------------------------------------

/// The model of every valid scene is in order.
pub proof fn law_scenes_are_in_order(scene: Scene)
    requires
        scene.wf(),
    ensures
        in_order(scene@),
{
}

proof fn lemma_one_id(tree: TreeModel, a: int, b: int)
    requires
        tree.resolves(a) is Some,
        tree.resolves(a) == tree.resolves(b),
    ensures
        a == b,
{
}

/// Steps leave tracks as they are or end them, and change nothing but nodes
/// and layout besides.
pub proof fn lemma_tracks_stepped(m: SceneModel, props: PropTable, steps: Seq<TrackStep>, n: int)
    requires
        in_order(m),
        0 <= n <= m.tracks.len(),
    ensures
        ({
            let a = m.tracks_stepped(props, steps, n);
            &&& in_order(a)
            &&& a.tree == m.tree && a.timelines == m.timelines
            &&& a.tracks.len() == m.tracks.len()
            &&& forall|k: int|
                #![trigger a.tracks[k]]
                0 <= k < m.tracks.len() ==> {
                    &&& a.tracks[k] == m.tracks[k] || a.tracks[k] == ended(m.tracks[k])
                    &&& k >= n ==> a.tracks[k] == m.tracks[k]
                }
        }),
    decreases n,
{
    if n > 0 {
        lemma_tracks_stepped(m, props, steps, n - 1);
        let a = m.tracks_stepped(props, steps, n - 1);
        let b = m.tracks_stepped(props, steps, n);
        assert(a.tracks[n - 1] == m.tracks[n - 1]);
        assert forall|k: int| #![trigger b.tracks[k]] 0 <= k < m.tracks.len() implies {
            &&& b.tracks[k] == m.tracks[k] || b.tracks[k] == ended(m.tracks[k])
            &&& k >= n ==> b.tracks[k] == m.tracks[k]
        } by {
            assert(a.tracks[k] == m.tracks[k] || a.tracks[k] == ended(m.tracks[k]));
        }
        assert(tracks_wf(b.tracks)) by {
            assert forall|k: int| #![trigger b.tracks[k]] 0 <= k < b.tracks.len() implies (
            b.tracks[k].gen as int) < crate::tree::id_gens() by {
                assert((a.tracks[k].gen as int) < crate::tree::id_gens());
            }
            assert forall|i: int, j: int|
                #![trigger b.tracks[i], b.tracks[j]]
                0 <= i < b.tracks.len() && 0 <= j < b.tracks.len() && b.tracks[i].alive
                    && b.tracks[j].alive && b.tracks[i].node == b.tracks[j].node
                    && b.tracks[i].prop == b.tracks[j].prop implies i == j by {
                assert(a.tracks[i] == b.tracks[i] && a.tracks[j] == b.tracks[j]);
            }
        }
        assert forall|s: int| #![trigger b.nodes[s]] 0 <= s < b.nodes.len() implies b.nodes[s].anims.len()
            == 256 && b.nodes[s].overrides.len() == 256 by {
            assert(a.nodes[s].anims.len() == 256 && a.nodes[s].overrides.len() == 256);
        }
    }
}

/// Steps of tracks that do not run on a property of a node leave it alone.
proof fn lemma_others_stepped(
    m: SceneModel,
    props: PropTable,
    steps: Seq<TrackStep>,
    lo: int,
    n: int,
    s: int,
    prop: u8,
)
    requires
        in_order(m),
        0 <= lo <= n <= m.tracks.len(),
        0 <= s < m.nodes.len(),
        forall|k: int| lo <= k < n ==> !#[trigger] moves(m, k, s, prop),
    ensures
        alike(
            m.tracks_stepped(props, steps, n).nodes[s],
            m.tracks_stepped(props, steps, lo).nodes[s],
            prop,
        ),
    decreases n - lo,
{
    if lo < n {
        lemma_others_stepped(m, props, steps, lo, n - 1, s, prop);
        lemma_tracks_stepped(m, props, steps, n - 1);
        let a = m.tracks_stepped(props, steps, n - 1);
        assert(a.tracks[n - 1] == m.tracks[n - 1]);
        assert(!moves(m, n - 1, s, prop));
        assert(a.nodes[s].anims.len() == 256);
    }
}

/// What a timeline makes of a property it has no track for, and of one it has
/// a track for but no value.
pub proof fn lemma_tracks_over(tl: Timeline, time: int, prop: u8, below: Option<Option<u32>>, n: int)
    requires
        0 <= n <= tl.tracks@.len(),
    ensures
        ({
            let r = tracks_over(tl, time, prop, below, n);
            &&& below is Some ==> r is Some
            &&& (forall|k: int|
                #![trigger tl.tracks@[k]]
                0 <= k < n ==> tl.tracks@[k].prop != prop) ==> r == below
            &&& (exists|k: int| 0 <= k < n && (#[trigger] tl.tracks@[k]).prop == prop) ==> r is Some
            &&& (below matches Some(b) ==> b is None) && (forall|k: int|
                #![trigger tl.tracks@[k]]
                0 <= k < n && tl.tracks@[k].prop == prop ==> line_value(
                    tl,
                    tl.tracks@[k],
                    time,
                ) is None) ==> (r matches Some(b) ==> b is None)
        }),
    decreases n,
{
    if n > 0 {
        lemma_tracks_over(tl, time, prop, below, n - 1);
        if exists|k: int| 0 <= k < n && (#[trigger] tl.tracks@[k]).prop == prop {
            let k = choose|k: int| 0 <= k < n && (#[trigger] tl.tracks@[k]).prop == prop;
            if k < n - 1 {
                assert(tl.tracks@[k].prop == prop);
            }
        }
    }
}

/// A timeline from `i` up to `j` has a track for a property.
pub open spec fn some_animates(styles: StyleTable, lines: Seq<TimelineInst>, i: int, j: int, prop: u8) -> bool {
    exists|k: int|
        i <= k < j && plays_on(styles, #[trigger] lines[k]) && animates(
            styles.anims@[lines[k].anim as int],
            prop,
        )
}

/// Timelines say something of a property where one of them has a track for it,
/// and if none has a value, that it has none.
pub proof fn lemma_lines_over(styles: StyleTable, lines: Seq<TimelineInst>, i: int, j: int, prop: u8)
    requires
        0 <= i <= j <= lines.len(),
    ensures
        lines_over(styles, lines, i, j, prop) is Some <==> some_animates(styles, lines, i, j, prop),
        (forall|k: int| #![trigger lines[k]] i <= k < j ==> silent(styles, lines[k], prop)) ==> (
        lines_over(styles, lines, i, j, prop) matches Some(b) ==> b is None),
    decreases j - i,
{
    if i < j {
        lemma_lines_over(styles, lines, i, j - 1, prop);
        let inst = lines[j - 1];
        if plays_on(styles, inst) {
            let tl = styles.anims@[inst.anim as int];
            let below = lines_over(styles, lines, i, j - 1, prop);
            lemma_tracks_over(tl, line_time(inst), prop, below, tl.tracks@.len() as int);
        }
        if some_animates(styles, lines, i, j, prop) {
            let k = choose|k: int|
                i <= k < j && plays_on(styles, #[trigger] lines[k]) && animates(
                    styles.anims@[lines[k].anim as int],
                    prop,
                );
            if k < j - 1 {
                assert(some_animates(styles, lines, i, j - 1, prop));
            }
        }
    }
}

/// A timeline from `i` on writes a property of the node in slot `s`.
pub open spec fn written_from(m: SceneModel, styles: StyleTable, i: int, s: int, prop: u8) -> bool {
    exists|k: int|
        i <= k < m.timelines.len() && writes(m.tree, styles, #[trigger] m.timelines[k], s, prop)
}

/// What timelines do to a property: they write it only if one of them has a
/// track for it, take its animated value away if one has and none has a value,
/// and go on having tracks for it or not.
pub proof fn lemma_lines_played(
    m: SceneModel,
    styles: StyleTable,
    props: PropTable,
    i: int,
    s: int,
    prop: u8,
)
    requires
        in_order(m),
        0 <= i <= m.timelines.len(),
        0 <= s < m.nodes.len(),
    ensures
        ({
            let a = m.lines_played(styles, props, i);
            let (was, now) = (m.nodes[s].anims[prop as int], a.nodes[s].anims[prop as int]);
            &&& in_order(a)
            &&& a.tree == m.tree && a.tracks == m.tracks
            &&& a.timelines.len() == m.timelines.len()
            &&& forall|k: int|
                #![trigger a.timelines[k]]
                0 <= k < m.timelines.len() ==> writes(m.tree, styles, a.timelines[k], s, prop)
                    == writes(m.tree, styles, m.timelines[k], s, prop)
            &&& same_base(a.nodes[s], m.nodes[s], prop)
            &&& !written_from(m, styles, i, s, prop) ==> now == was
            &&& (was is None || written_from(m, styles, i, s, prop)) && (forall|k: int|
                #![trigger m.timelines[k]]
                i <= k < m.timelines.len() && m.tree.resolves(m.timelines[k].node as int) == Some(s)
                    ==> silent(styles, m.timelines[k], prop)) ==> now is None
        }),
    decreases m.timelines.len() - i,
{
    if i < m.timelines.len() {
        let node = m.timelines[i].node;
        lemma_batch_end(m.timelines, node, i);
        lemma_batch_end(m.timelines, node, i + 1);
        let end = batch_end(m.timelines, node, i);
        if !m.timelines[i].alive {
            lemma_lines_played(m, styles, props, i + 1, s, prop);
            if written_from(m, styles, i, s, prop) {
                let k = choose|k: int|
                    i <= k < m.timelines.len() && writes(
                        m.tree,
                        styles,
                        #[trigger] m.timelines[k],
                        s,
                        prop,
                    );
                assert(k != i);
            }
        } else {
            let b = m.batch_played(styles, props, i, end);
            let a = m.lines_played(styles, props, i);
            let at = m.tree.resolves(node as int);
            if at is Some {
                assert(m.nodes[at->0].anims.len() == 256);
                assert forall|k: int|
                    #![trigger b.nodes[k]]
                    0 <= k < b.nodes.len() implies b.nodes[k].anims.len() == 256
                    && b.nodes[k].overrides.len() == 256 by {
                    assert(m.nodes[k].anims.len() == 256 && m.nodes[k].overrides.len() == 256);
                }
            }
            assert forall|k: int|
                #![trigger b.timelines[k]]
                0 <= k < m.timelines.len() implies writes(
                m.tree,
                styles,
                b.timelines[k],
                s,
                prop,
            ) == writes(m.tree, styles, m.timelines[k], s, prop) by {}
            lemma_lines_played(b, styles, props, end, s, prop);
            assert(a == b.lines_played(styles, props, end));
            assert forall|k: int|
                #![trigger a.timelines[k]]
                0 <= k < m.timelines.len() implies writes(
                m.tree,
                styles,
                a.timelines[k],
                s,
                prop,
            ) == writes(m.tree, styles, m.timelines[k], s, prop) by {
                assert(writes(m.tree, styles, b.timelines[k], s, prop) == writes(
                    m.tree,
                    styles,
                    m.timelines[k],
                    s,
                    prop,
                ));
            }
            lemma_batch_written(m, styles, props, i, end, s, prop);
            if forall|k: int|
                #![trigger m.timelines[k]]
                i <= k < m.timelines.len() && m.tree.resolves(m.timelines[k].node as int) == Some(s)
                    ==> silent(styles, m.timelines[k], prop) {
                assert forall|k: int|
                    #![trigger b.timelines[k]]
                    end <= k < b.timelines.len() && b.tree.resolves(b.timelines[k].node as int)
                        == Some(s) implies silent(styles, b.timelines[k], prop) by {
                    assert(b.timelines[k] == m.timelines[k]);
                }
                if at == Some(s) {
                    assert forall|k: int| #![trigger m.timelines[k]] i <= k < end implies silent(
                        styles,
                        m.timelines[k],
                        prop,
                    ) by {
                        assert(m.timelines[k].node == node);
                    }
                }
            }
        }
    }
}

/// Where the timelines that write a property stand, of those in a batch and
/// those behind it.
proof fn lemma_batch_written(
    m: SceneModel,
    styles: StyleTable,
    props: PropTable,
    i: int,
    end: int,
    s: int,
    prop: u8,
)
    requires
        in_order(m),
        0 <= i < end <= m.timelines.len(),
        0 <= s < m.nodes.len(),
        forall|k: int|
            #![trigger m.timelines[k]]
            i <= k < end ==> m.timelines[k].node == m.timelines[i].node,
    ensures
        ({
            let b = m.batch_played(styles, props, i, end);
            let here = m.tree.resolves(m.timelines[i].node as int) == Some(s) && some_animates(
                styles,
                m.timelines,
                i,
                end,
                prop,
            );
            let (was, now) = (m.nodes[s].anims[prop as int], b.nodes[s].anims[prop as int]);
            &&& written_from(m, styles, i, s, prop) <==> here || written_from(
                b,
                styles,
                end,
                s,
                prop,
            )
            &&& forall|k: int| #![trigger b.timelines[k]] end <= k < b.timelines.len() ==> b.timelines[k]
                == m.timelines[k]
            &&& !here ==> now == was
            &&& here && (forall|k: int|
                #![trigger m.timelines[k]]
                i <= k < end ==> silent(styles, m.timelines[k], prop)) ==> now is None
        }),
{
    let b = m.batch_played(styles, props, i, end);
    let node = m.timelines[i].node;
    lemma_lines_over(styles, m.timelines, i, end, prop);
    assert(m.nodes[s].anims.len() == 256);
    if m.tree.resolves(node as int) == Some(s) {
        assert(b.nodes[s].anims[prop as int] == written(
            styles,
            m.timelines,
            i,
            end,
            m.nodes[s].anims,
        )[prop as int]);
        if some_animates(styles, m.timelines, i, end, prop) {
            let k = choose|k: int|
                i <= k < end && plays_on(styles, #[trigger] m.timelines[k]) && animates(
                    styles.anims@[m.timelines[k].anim as int],
                    prop,
                );
            assert(writes(m.tree, styles, m.timelines[k], s, prop));
        }
    }
    if written_from(m, styles, i, s, prop) {
        let k = choose|k: int|
            i <= k < m.timelines.len() && writes(
                m.tree,
                styles,
                #[trigger] m.timelines[k],
                s,
                prop,
            );
        if k < end {
            assert(some_animates(styles, m.timelines, i, end, prop));
        } else {
            assert(writes(b.tree, styles, b.timelines[k], s, prop));
        }
    }
    if written_from(b, styles, end, s, prop) {
        let k = choose|k: int|
            end <= k < b.timelines.len() && writes(
                b.tree,
                styles,
                #[trigger] b.timelines[k],
                s,
                prop,
            );
        assert(writes(m.tree, styles, m.timelines[k], s, prop));
    }
}

pub proof fn lemma_alive_lines(lines: Seq<TimelineInst>)
    ensures
        forall|k: int|
            #![trigger alive_lines(lines)[k]]
            0 <= k < alive_lines(lines).len() ==> lines.contains(alive_lines(lines)[k]),
        forall|k: int|
            #![trigger lines[k]]
            0 <= k < lines.len() && lines[k].alive ==> alive_lines(lines).contains(lines[k]),
    decreases lines.len(),
{
    if lines.len() > 0 {
        let rest = lines.drop_last();
        lemma_alive_lines(rest);
        let kept = alive_lines(lines);
        assert forall|k: int| #![trigger kept[k]] 0 <= k < kept.len() implies lines.contains(
            kept[k],
        ) by {
            if k < alive_lines(rest).len() {
                assert(rest.contains(alive_lines(rest)[k]));
                let j = choose|j: int| 0 <= j < rest.len() && rest[j] == alive_lines(rest)[k];
                assert(lines[j] == kept[k]);
            } else {
                assert(lines[lines.len() - 1] == kept[k]);
            }
        }
        assert forall|k: int|
            #![trigger lines[k]]
            0 <= k < lines.len() && lines[k].alive implies kept.contains(lines[k]) by {
            if k < rest.len() {
                assert(rest[k] == lines[k]);
                assert(alive_lines(rest).contains(lines[k]));
                let j = choose|j: int|
                    0 <= j < alive_lines(rest).len() && alive_lines(rest)[j] == lines[k];
                assert(kept[j] == lines[k]);
            } else {
                assert(kept[kept.len() - 1] == lines[k]);
            }
        }
    }
}

/// What a frame does to a property of a node, once the tracks moved on.
proof fn lemma_frame(
    m: SceneModel,
    styles: StyleTable,
    props: PropTable,
    steps: Seq<TrackStep>,
    s: int,
    prop: u8,
)
    requires
        in_order(m),
        0 <= s < m.nodes.len(),
        steps.len() == m.tracks.len(),
    ensures
        ({
            let stepped = m.tracks_stepped(props, steps, steps.len() as int);
            let a = m.ticked(styles, props, steps);
            let (was, now) = (stepped.nodes[s].anims[prop as int], a.nodes[s].anims[prop as int]);
            &&& in_order(a)
            &&& a.tree == m.tree && a.tracks == stepped.tracks
            &&& a.tracks.len() == m.tracks.len()
            &&& same_base(a.nodes[s], stepped.nodes[s], prop)
            &&& unwritten(a, styles, s, prop) == unwritten(m, styles, s, prop)
            &&& unwritten(m, styles, s, prop) ==> now == was
            &&& quiet(m, styles, s, prop) && (was is None || !unwritten(m, styles, s, prop)) ==> now is None
        }),
{
    let stepped = m.tracks_stepped(props, steps, steps.len() as int);
    lemma_tracks_stepped(m, props, steps, steps.len() as int);
    lemma_lines_played(stepped, styles, props, 0, s, prop);
    let played = stepped.lines_played(styles, props, 0);
    lemma_alive_lines(played.timelines);
    let a = m.ticked(styles, props, steps);
    assert(a.timelines == alive_lines(played.timelines));
    assert(written_from(stepped, styles, 0, s, prop) == !unwritten(m, styles, s, prop)) by {
        if written_from(stepped, styles, 0, s, prop) {
            let k = choose|k: int|
                0 <= k < stepped.timelines.len() && writes(
                    stepped.tree,
                    styles,
                    #[trigger] stepped.timelines[k],
                    s,
                    prop,
                );
            assert(writes(m.tree, styles, m.timelines[k], s, prop));
        }
    }
    if unwritten(m, styles, s, prop) {
        assert forall|k: int| #![trigger a.timelines[k]] 0 <= k < a.timelines.len() implies !writes(
            a.tree,
            styles,
            a.timelines[k],
            s,
            prop,
        ) by {
            assert(played.timelines.contains(alive_lines(played.timelines)[k]));
            let j = choose|j: int|
                0 <= j < played.timelines.len() && played.timelines[j] == alive_lines(
                    played.timelines,
                )[k];
            assert(!writes(m.tree, styles, m.timelines[j], s, prop));
            assert(!writes(m.tree, styles, played.timelines[j], s, prop));
        }
    } else {
        let k = choose|k: int|
            0 <= k < m.timelines.len() && writes(
                m.tree,
                styles,
                #[trigger] m.timelines[k],
                s,
                prop,
            );
        assert(writes(m.tree, styles, played.timelines[k], s, prop));
        assert(a.timelines.contains(played.timelines[k]));
        let j = choose|j: int|
            0 <= j < a.timelines.len() && a.timelines[j] == played.timelines[k];
        assert(writes(a.tree, styles, a.timelines[j], s, prop));
    }
}

/// What a frame does to a property that no track runs on.
proof fn lemma_frame_trackless(m: UiModel, steps: Seq<TrackStep>, s: int, prop: u8)
    requires
        in_order(m.scene),
        0 <= s < m.scene.nodes.len(),
        steps.len() == m.scene.tracks.len(),
        trackless(m.scene, s, prop),
        accounted(m.scene, m.rules.styles, s, prop) || unwritten(m.scene, m.rules.styles, s, prop),
    ensures
        ({
            let (b, styles) = (m.scene, m.rules.styles);
            let a = m.ticked(steps).scene;
            &&& in_order(a)
            &&& a.tree == b.tree && a.tracks.len() == b.tracks.len()
            &&& forall|k: int|
                #![trigger a.tracks[k]]
                0 <= k < b.tracks.len() && a.tracks[k].alive ==> a.tracks[k] == b.tracks[k]
            &&& trackless(a, s, prop)
            &&& same_base(a.nodes[s], b.nodes[s], prop)
            &&& accounted(b, styles, s, prop) ==> accounted(a, styles, s, prop)
            &&& unwritten(a, styles, s, prop) == unwritten(b, styles, s, prop)
            &&& unwritten(b, styles, s, prop) ==> alike(a.nodes[s], b.nodes[s], prop)
            &&& m.advances() && quiet(b, styles, s, prop) && accounted(b, styles, s, prop)
                ==> a.nodes[s].anims[prop as int] is None
            &&& !m.advances() ==> a == b
        }),
{
    if m.advances() {
        let (b, styles, props) = (m.scene, m.rules.styles, m.rules.props);
        let n = steps.len() as int;
        let a = b.ticked(styles, props, steps);
        lemma_tracks_stepped(b, props, steps, n);
        lemma_others_stepped(b, props, steps, 0, n, s, prop);
        lemma_frame(b, styles, props, steps, s, prop);
        assert forall|k: int|
            #![trigger a.tracks[k]]
            0 <= k < a.tracks.len() && a.tracks[k].alive implies a.tracks[k] == b.tracks[k] by {}
        assert forall|k: int| 0 <= k < a.tracks.len() implies !#[trigger] moves(a, k, s, prop) by {
            assert(!moves(b, k, s, prop));
        }
    }
}

/// Over frames a property that no track runs on keeps what is set for it; it
/// shows an animated value only of a timeline, and none once a frame was quiet.
proof fn lemma_frames_trackless(m: UiModel, frames: Seq<Seq<TrackStep>>, s: int, prop: u8)
    requires
        in_order(m.scene),
        0 <= s < m.scene.nodes.len(),
        frames_fit(frames, m.scene.tracks.len()),
        trackless(m.scene, s, prop),
        accounted(m.scene, m.rules.styles, s, prop) || unwritten(m.scene, m.rules.styles, s, prop),
    ensures
        ({
            let (u, styles) = (m.after_frames(frames), m.rules.styles);
            let (a, b) = (u.scene, m.scene);
            &&& in_order(a)
            &&& u.rules == m.rules && a.tree == b.tree && a.tracks.len() == b.tracks.len()
            &&& forall|k: int|
                #![trigger a.tracks[k]]
                0 <= k < b.tracks.len() && a.tracks[k].alive ==> a.tracks[k] == b.tracks[k]
            &&& trackless(a, s, prop)
            &&& same_base(a.nodes[s], b.nodes[s], prop)
            &&& accounted(b, styles, s, prop) ==> accounted(a, styles, s, prop)
            &&& unwritten(a, styles, s, prop) == unwritten(b, styles, s, prop)
            &&& unwritten(b, styles, s, prop) ==> alike(a.nodes[s], b.nodes[s], prop)
            &&& accounted(b, styles, s, prop) && ends_quiet(m, frames, s, prop)
                ==> a.nodes[s].anims[prop as int] is None || a == b
        }),
    decreases frames.len(),
{
    if frames.len() > 0 {
        let rest = frames.drop_last();
        assert forall|k: int| 0 <= k < rest.len() implies (#[trigger] rest[k]).len()
            == m.scene.tracks.len() by {
            assert(rest[k] == frames[k]);
        }
        lemma_frames_trackless(m, rest, s, prop);
        let u = m.after_frames(rest);
        assert(frames[frames.len() - 1].len() == m.scene.tracks.len());
        lemma_frame_trackless(u, frames.last(), s, prop);
        let (a, b) = (u.ticked(frames.last()).scene, u.scene);
        assert forall|k: int|
            #![trigger a.tracks[k]]
            0 <= k < m.scene.tracks.len() && a.tracks[k].alive implies a.tracks[k]
            == m.scene.tracks[k] by {
            assert(a.tracks[k] == b.tracks[k]);
        }
    }
}

// ---- laws -----------------------------------------------------------------------------------

/// Frames change nothing of a property that no track runs on and no timeline
/// has a track for; nor of one that has no animated value, if no timeline gave
/// it one in the last of them.
pub proof fn law_settled_values_stay(m: UiModel, frames: Seq<Seq<TrackStep>>, s: int, prop: u8)
    requires
        in_order(m.scene),
        0 <= s < m.scene.nodes.len(),
        frames_fit(frames, m.scene.tracks.len()),
        trackless(m.scene, s, prop),
        unwritten(m.scene, m.rules.styles, s, prop) || m.scene.nodes[s].anims[prop as int] is None
            && ends_quiet(m, frames, s, prop),
    ensures
        node_value(m.after_frames(frames).scene.nodes[s], m.rules.styles, true, prop)
            == node_value(m.scene.nodes[s], m.rules.styles, true, prop),
{
    lemma_frames_trackless(m, frames, s, prop);
}

/// A frame shows of a track that runs on where it is, if no timeline has a
/// track for the property, and the id of the animation goes on naming it.
pub proof fn law_track_shows_its_value(m: UiModel, i: int, steps: Seq<TrackStep>, s: int)
    requires
        in_order(m.scene),
        m.advances(),
        0 <= i < m.scene.tracks.len(),
        steps.len() == m.scene.tracks.len(),
        m.scene.tracks[i].alive,
        !steps[i].done,
        m.scene.tree.resolves(m.scene.tracks[i].node as int) == Some(s),
        unwritten(m.scene, m.rules.styles, s, m.scene.tracks[i].prop),
    ensures
        ({
            let t = m.scene.tracks[i];
            let n = m.ticked(steps).scene;
            &&& node_value(n.nodes[s], m.rules.styles, true, t.prop) == steps[i].value
            &&& Anims::place(n.tracks, t.gen as int * id_space() + i) == Some(i)
        }),
{
    let t = m.scene.tracks[i];
    let props = m.rules.props;
    lemma_track_alone(m.scene, i, s);
    lemma_frame(m.scene, m.rules.styles, props, steps, s, t.prop);
    lemma_tracks_stepped(m.scene, props, steps, i);
    lemma_tracks_stepped(m.scene, props, steps, i + 1);
    lemma_others_stepped(m.scene, props, steps, i + 1, steps.len() as int, s, t.prop);
    let before = m.scene.tracks_stepped(props, steps, i);
    assert(before.tracks[i] == t);
    assert(before.nodes[s].anims.len() == 256);
    lemma_kept_alive(m.scene, props, steps, i, i + 1, steps.len() as int);
}

proof fn lemma_track_alone(m: SceneModel, i: int, s: int)
    requires
        in_order(m),
        0 <= i < m.tracks.len(),
        moves(m, i, s, m.tracks[i].prop),
    ensures
        forall|k: int|
            0 <= k < m.tracks.len() && k != i ==> !#[trigger] moves(m, k, s, m.tracks[i].prop),
{
    let t = m.tracks[i];
    assert forall|k: int| 0 <= k < m.tracks.len() && k != i implies !#[trigger] moves(
        m,
        k,
        s,
        t.prop,
    ) by {
        if moves(m, k, s, t.prop) {
            lemma_one_id(m.tree, m.tracks[k].node as int, t.node as int);
            assert(m.tracks[k].alive && m.tracks[i].alive);
        }
    }
}

proof fn lemma_kept_alive(
    m: SceneModel,
    props: PropTable,
    steps: Seq<TrackStep>,
    i: int,
    lo: int,
    n: int,
)
    requires
        0 <= i < lo <= n <= m.tracks.len(),
        in_order(m),
    ensures
        m.tracks_stepped(props, steps, n).tracks[i] == m.tracks_stepped(
            props,
            steps,
            lo,
        ).tracks[i],
    decreases n - lo,
{
    if lo < n {
        lemma_kept_alive(m, props, steps, i, lo, n - 1);
        lemma_tracks_stepped(m, props, steps, n - 1);
    }
}

/// The frame in which a track is done leaves its property to the style, or, if
/// a script started it, at its target, where the target is then set on the node
/// for good. The property shows that after this frame and after every later one
/// but those in which a timeline of the node has a value for it. The id of the
/// animation names nothing any more, so that stopping it changes nothing.
///
/// The track is done in the first of the frames.
pub proof fn law_track_ends_at_its_target(
    m: UiModel,
    i: int,
    frames: Seq<Seq<TrackStep>>,
    s: int,
)
    requires
        in_order(m.scene),
        m.advances(),
        0 <= i < m.scene.tracks.len(),
        frames_fit(frames, m.scene.tracks.len()),
        frames.len() > 0,
        m.scene.tracks[i].alive,
        frames[0][i].done,
        m.scene.tree.resolves(m.scene.tracks[i].node as int) == Some(s),
    ensures
        ({
            let t = m.scene.tracks[i];
            let id = t.gen as int * id_space() + i;
            let n = m.after_frames(frames).scene;
            &&& ends_quiet(m, frames, s, t.prop) ==> node_value(
                n.nodes[s],
                m.rules.styles,
                true,
                t.prop,
            ) == (if t.explicit {
                t.to
            } else {
                node_value(m.scene.nodes[s], m.rules.styles, false, t.prop)
            })
            &&& ends_quiet(m, frames, s, t.prop) ==> n.nodes[s].anims[t.prop as int] is None
            &&& node_value(n.nodes[s], m.rules.styles, false, t.prop) == (if t.explicit {
                t.to
            } else {
                node_value(m.scene.nodes[s], m.rules.styles, false, t.prop)
            })
            &&& t.explicit ==> n.nodes[s].overrides[t.prop as int] == Some(t.to)
            &&& Anims::place(n.tracks, id) is None
            &&& n.with_anim_cancelled(id) == n
        }),
{
    lemma_ended(m, i, frames, s);
    let t = m.scene.tracks[i];
    let id = t.gen as int * id_space() + i;
    assert(id % id_space() == i);
}

/// What is left of a track that was done in the first of some frames.
proof fn lemma_ended(m: UiModel, i: int, frames: Seq<Seq<TrackStep>>, s: int)
    requires
        in_order(m.scene),
        m.advances(),
        0 <= i < m.scene.tracks.len(),
        frames_fit(frames, m.scene.tracks.len()),
        frames.len() > 0,
        m.scene.tracks[i].alive,
        frames[0][i].done,
        m.scene.tree.resolves(m.scene.tracks[i].node as int) == Some(s),
    ensures
        ({
            let (t, was) = (m.scene.tracks[i], m.scene.nodes[s]);
            let (u, styles) = (m.after_frames(frames), m.rules.styles);
            let a = u.scene;
            &&& in_order(a)
            &&& u.rules == m.rules && a.tree == m.scene.tree
            &&& a.tracks.len() == m.scene.tracks.len()
            &&& !a.tracks[i].alive
            &&& trackless(a, s, t.prop)
            &&& accounted(a, styles, s, t.prop)
            &&& (a.nodes[s].style_id, a.nodes[s].focused, a.nodes[s].active) == (
                was.style_id,
                was.focused,
                was.active,
            )
            &&& a.nodes[s].overrides[t.prop as int] == (if t.explicit {
                Some(t.to)
            } else {
                was.overrides[t.prop as int]
            })
            &&& ends_quiet(m, frames, s, t.prop) ==> a.nodes[s].anims[t.prop as int] is None
        }),
    decreases frames.len(),
{
    let t = m.scene.tracks[i];
    let rest = frames.drop_last();
    let last = frames.last();
    assert(frames[frames.len() - 1].len() == m.scene.tracks.len());
    if rest.len() == 0 {
        assert(m.after_frames(rest) == m);
        assert(last == frames[0]);
        lemma_track_done(m, i, last, s);
    } else {
        assert forall|k: int| 0 <= k < rest.len() implies (#[trigger] rest[k]).len()
            == m.scene.tracks.len() by {
            assert(rest[k] == frames[k]);
        }
        assert(rest[0] == frames[0]);
        lemma_ended(m, i, rest, s);
        let u = m.after_frames(rest);
        lemma_frame_trackless(u, last, s, t.prop);
        let a = u.ticked(last).scene;
        assert(a.tracks[i].alive ==> a.tracks[i] == u.scene.tracks[i]);
    }
}

/// The frame in which a track is done.
proof fn lemma_track_done(m: UiModel, i: int, steps: Seq<TrackStep>, s: int)
    requires
        in_order(m.scene),
        m.advances(),
        0 <= i < m.scene.tracks.len(),
        steps.len() == m.scene.tracks.len(),
        m.scene.tracks[i].alive,
        steps[i].done,
        m.scene.tree.resolves(m.scene.tracks[i].node as int) == Some(s),
    ensures
        ({
            let (t, was) = (m.scene.tracks[i], m.scene.nodes[s]);
            let a = m.ticked(steps).scene;
            &&& in_order(a)
            &&& a.tree == m.scene.tree
            &&& a.tracks.len() == m.scene.tracks.len()
            &&& !a.tracks[i].alive
            &&& trackless(a, s, t.prop)
            &&& accounted(a, m.rules.styles, s, t.prop)
            &&& (a.nodes[s].style_id, a.nodes[s].focused, a.nodes[s].active) == (
                was.style_id,
                was.focused,
                was.active,
            )
            &&& a.nodes[s].overrides[t.prop as int] == (if t.explicit {
                Some(t.to)
            } else {
                was.overrides[t.prop as int]
            })
            &&& quiet(m.scene, m.rules.styles, s, t.prop)
                ==> a.nodes[s].anims[t.prop as int] is None
        }),
{
    let t = m.scene.tracks[i];
    let (styles, props) = (m.rules.styles, m.rules.props);
    let len = steps.len() as int;
    lemma_track_alone(m.scene, i, s);
    lemma_tracks_stepped(m.scene, props, steps, i);
    lemma_tracks_stepped(m.scene, props, steps, i + 1);
    lemma_tracks_stepped(m.scene, props, steps, len);
    lemma_others_stepped(m.scene, props, steps, 0, i, s, t.prop);
    lemma_others_stepped(m.scene, props, steps, i + 1, len, s, t.prop);
    let before = m.scene.tracks_stepped(props, steps, i);
    assert(before.tracks[i] == t);
    assert(before.nodes[s].anims.len() == 256 && before.nodes[s].overrides.len() == 256);
    lemma_kept_alive(m.scene, props, steps, i, i + 1, len);
    lemma_frame(m.scene, styles, props, steps, s, t.prop);
    let a = m.ticked(steps).scene;
    assert(!a.tracks[i].alive);
    assert forall|k: int| 0 <= k < a.tracks.len() implies !#[trigger] moves(a, k, s, t.prop) by {
        if k != i {
            assert(!moves(m.scene, k, s, t.prop));
        }
    }
}

/// An animation that was stopped leaves its property as it was. The property
/// shows that after every later frame too but those in which a timeline of the
/// node has a value for it. The id of the animation names nothing any more, so
/// that stopping it again changes nothing.
pub proof fn law_cancel_keeps_the_value(m: UiModel, id: int, later: Seq<Seq<TrackStep>>, s: int)
    requires
        in_order(m.scene),
        Anims::place(m.scene.tracks, id) is Some,
        m.scene.tree.resolves(
            m.scene.tracks[Anims::place(m.scene.tracks, id)->0].node as int,
        ) == Some(s),
        frames_fit(later, m.scene.tracks.len()),
    ensures
        ({
            let prop = m.scene.tracks[Anims::place(m.scene.tracks, id)->0].prop;
            let stopped = m.with_scene(m.scene.with_anim_cancelled(id));
            let n = stopped.after_frames(later).scene;
            let value = node_value(m.scene.nodes[s], m.rules.styles, true, prop);
            &&& node_value(stopped.scene.nodes[s], m.rules.styles, true, prop) == value
            &&& ends_quiet(stopped, later, s, prop) ==> node_value(
                n.nodes[s],
                m.rules.styles,
                true,
                prop,
            ) == value
            &&& node_value(n.nodes[s], m.rules.styles, false, prop) == value
            &&& Anims::place(n.tracks, id) is None
            &&& n.with_anim_cancelled(id) == n
        }),
{
    let at = Anims::place(m.scene.tracks, id)->0;
    let t = m.scene.tracks[at];
    let a = m.scene.with_anim_cancelled(id);
    lemma_track_alone(m.scene, at, s);
    assert(m.scene.nodes[s].anims.len() == 256 && m.scene.nodes[s].overrides.len() == 256);
    assert(in_order(a)) by {
        assert forall|k: int| #![trigger a.tracks[k]] 0 <= k < a.tracks.len() implies (
        a.tracks[k].gen as int) < crate::tree::id_gens() by {
            assert((m.scene.tracks[k].gen as int) < crate::tree::id_gens());
        }
        assert forall|i: int, j: int|
            #![trigger a.tracks[i], a.tracks[j]]
            0 <= i < a.tracks.len() && 0 <= j < a.tracks.len() && a.tracks[i].alive
                && a.tracks[j].alive && a.tracks[i].node == a.tracks[j].node && a.tracks[i].prop
                == a.tracks[j].prop implies i == j by {
            assert(m.scene.tracks[i] == a.tracks[i] && m.scene.tracks[j] == a.tracks[j]);
        }
        assert forall|k: int| #![trigger a.nodes[k]] 0 <= k < a.nodes.len() implies a.nodes[k].anims.len()
            == 256 && a.nodes[k].overrides.len() == 256 by {
            assert(m.scene.nodes[k].anims.len() == 256 && m.scene.nodes[k].overrides.len() == 256);
        }
    }
    assert forall|k: int| 0 <= k < a.tracks.len() implies !#[trigger] moves(a, k, s, t.prop) by {
        if k != at {
            assert(!moves(m.scene, k, s, t.prop));
        }
    }
    let stopped = m.with_scene(a);
    lemma_frames_trackless(stopped, later, s, t.prop);
    assert(!a.tracks[at].alive);
    assert(!stopped.after_frames(later).scene.tracks[at].alive);
}

/// Where no timeline of a node has a track for a property, none has a value for
/// it in any frame to come.
pub proof fn law_unwritten_ends_quiet(m: UiModel, frames: Seq<Seq<TrackStep>>, s: int, prop: u8)
    requires
        in_order(m.scene),
        0 <= s < m.scene.nodes.len(),
        frames_fit(frames, m.scene.tracks.len()),
        unwritten(m.scene, m.rules.styles, s, prop),
    ensures
        in_order(m.after_frames(frames).scene),
        m.after_frames(frames).rules == m.rules,
        m.after_frames(frames).scene.nodes.len() == m.scene.nodes.len(),
        m.after_frames(frames).scene.tracks.len() == m.scene.tracks.len(),
        unwritten(m.after_frames(frames).scene, m.rules.styles, s, prop),
        ends_quiet(m, frames, s, prop),
    decreases frames.len(),
{
    if frames.len() > 0 {
        let rest = frames.drop_last();
        assert forall|k: int| 0 <= k < rest.len() implies (#[trigger] rest[k]).len()
            == m.scene.tracks.len() by {
            assert(rest[k] == frames[k]);
        }
        law_unwritten_ends_quiet(m, rest, s, prop);
        let b = m.after_frames(rest);
        assert(frames[frames.len() - 1].len() == m.scene.tracks.len());
        if b.advances() {
            lemma_frame(b.scene, m.rules.styles, m.rules.props, frames.last(), s, prop);
            assert forall|k: int|
                #![trigger b.scene.timelines[k]]
                0 <= k < b.scene.timelines.len() && b.scene.tree.resolves(
                    b.scene.timelines[k].node as int,
                ) == Some(s) implies silent(m.rules.styles, b.scene.timelines[k], prop) by {
                assert(!writes(b.scene.tree, m.rules.styles, b.scene.timelines[k], s, prop));
            }
        }
    }
}

/// A timeline that played all its periods and does not fill forwards has no
/// value for anything, nor has it in the next frame, until its clock starts
/// over; and neither has one that loops before its delay is over and does not
/// fill backwards.
pub proof fn law_spent_timelines_are_silent(styles: StyleTable, inst: TimelineInst, prop: u8)
    requires
        plays_on(styles, inst),
        ({
            let tl = styles.anims@[inst.anim as int];
            ||| inst.loop_frames == 0 && inst.clock < u32::MAX && tl.iterations != 0
                && !tl.fill_forwards && inst.clock - tl.delay_frames >= tl.period_frames
                * tl.iterations
            ||| 0 < inst.loop_frames <= tl.delay_frames && !tl.fill_backwards
        }),
    ensures
        silent(styles, inst, prop),
        silent(styles, line_after(styles, inst), prop),
{
    let tl = styles.anims@[inst.anim as int];
    assert(0 <= tl.period_frames * tl.iterations) by (nonlinear_arith)
        requires
            tl.period_frames >= 0,
            tl.iterations >= 0,
    ;
}

/// Stopping an animation twice is stopping it once, and an id that names no
/// animation changes nothing.
pub proof fn law_cancel_once(m: SceneModel, id: int)
    ensures
        m.with_anim_cancelled(id).with_anim_cancelled(id) == m.with_anim_cancelled(id),
        Anims::place(m.tracks, id) is None ==> m.with_anim_cancelled(id) == m,
{
}

} // verus!
