//! What calls of scripts do: each function under its name, on its arguments.
use crate::bridge::{
    app_ops, arg, audio_ops, bits_for, command_of, lists, name_of, nargs_of, ui_ops, Arg, Command,
    Op, OpEntry,
};
use crate::constants::{F32_COORD_MAX, F32_COORD_MIN, NODE_SURFACE};
use crate::fbits::{above_zero, is_nan, total_key};
use crate::frames::in_order;
use crate::looks::{one_focus, sound};
use crate::restyle::Rules;
use crate::scene::{node_value, Scene, SceneModel};
use crate::style::{PropTable, KIND_F32, KIND_NONE};
use crate::texture::resolves;
use crate::ui::{Cursor, Inspector, UiModel};
use vstd::prelude::*;

verus! {

// ---- names -----------------------------------------------------------------------------------

/// Functions go by their names.
#[verifier::rlimit(50)]
pub proof fn law_functions_have_their_names(table: Seq<OpEntry>, ops: Seq<Op>, i: int)
    requires
        lists(table, ops),
        0 <= i < ops.len(),
    ensures
        table[i].op == Op::CreateNode ==> table[i].name@ == "createNode"@,
        table[i].op == Op::DestroyNode ==> table[i].name@ == "destroyNode"@,
        table[i].op == Op::InsertBefore ==> table[i].name@ == "insertBefore"@,
        table[i].op == Op::RemoveChild ==> table[i].name@ == "removeChild"@,
        table[i].op == Op::SetStyle ==> table[i].name@ == "setStyle"@,
        table[i].op == Op::SetProp ==> table[i].name@ == "setProp"@,
        table[i].op == Op::SetPropBatch ==> table[i].name@ == "setPropBatch"@,
        table[i].op == Op::SetText ==> table[i].name@ == "setText"@,
        table[i].op == Op::ReplaceText ==> table[i].name@ == "replaceText"@,
        table[i].op == Op::UploadTexture ==> table[i].name@ == "uploadTexture"@,
        table[i].op == Op::SetImage ==> table[i].name@ == "setImage"@,
        table[i].op == Op::SetSprite ==> table[i].name@ == "setSprite"@,
        table[i].op == Op::Animate ==> table[i].name@ == "animate"@,
        table[i].op == Op::CancelAnim ==> table[i].name@ == "cancelAnim"@,
        table[i].op == Op::SetFocus ==> table[i].name@ == "setFocus"@,
        table[i].op == Op::SetActive ==> table[i].name@ == "setActive"@,
        table[i].op == Op::HitTest ==> table[i].name@ == "hitTest"@,
        table[i].op == Op::SetCursor ==> table[i].name@ == "setCursor"@,
        table[i].op == Op::SetCursorPos ==> table[i].name@ == "setCursorPos"@,
        table[i].op == Op::LoadStyles ==> table[i].name@ == "loadStyles"@,
        table[i].op == Op::LoadFontAtlas ==> table[i].name@ == "loadFontAtlas"@,
        table[i].op == Op::MeasureText ==> table[i].name@ == "measureText"@,
        table[i].op == Op::DebugInspect ==> table[i].name@ == "debugInspect"@,
        table[i].op == Op::DebugRectXy ==> table[i].name@ == "debugRectXY"@,
        table[i].op == Op::DebugRectWh ==> table[i].name@ == "debugRectWH"@,
        table[i].op == Op::DebugPause ==> table[i].name@ == "debugPause"@,
        table[i].op == Op::DebugStep ==> table[i].name@ == "debugStep"@,
        table[i].op == Op::LoadTileTexture ==> table[i].name@ == "loadTileTexture"@,
        table[i].op == Op::FreeTexture ==> table[i].name@ == "freeTexture"@,
        table[i].op == Op::UploadImgEntry ==> table[i].name@ == "uploadImgEntry"@,
        table[i].op == Op::DbgActive ==> table[i].name@ == "__dbgActive"@,
        table[i].op == Op::DbgPoll ==> table[i].name@ == "__dbgPoll"@,
        table[i].op == Op::DbgSend ==> table[i].name@ == "__dbgSend"@,
        table[i].op == Op::DebugStats ==> table[i].name@ == "debugStats"@,
        table[i].op == Op::DbgShot ==> table[i].name@ == "__dbgShot"@,
        table[i].op == Op::SvcOpen ==> table[i].name@ == "svcOpen"@,
        table[i].op == Op::SvcPoll ==> table[i].name@ == "svcPoll"@,
        table[i].op == Op::SvcSend ==> table[i].name@ == "svcSend"@,
        table[i].op == Op::LoadImgFile ==> table[i].name@ == "loadImgFile"@,
        table[i].op == Op::VideoOpen ==> table[i].name@ == "videoOpen"@,
        table[i].op == Op::VideoTick ==> table[i].name@ == "videoTick"@,
        table[i].op == Op::VideoTexture ==> table[i].name@ == "videoTexture"@,
        table[i].op == Op::VideoClose ==> table[i].name@ == "videoClose"@,
        table[i].op == Op::AppTable ==> table[i].name@ == "appTable"@,
        table[i].op == Op::AppLaunch ==> table[i].name@ == "appLaunch"@,
        table[i].op == Op::AppShot ==> table[i].name@ == "appShot"@,
        table[i].op == Op::AudioCreateStream ==> table[i].name@ == "createStream"@,
        table[i].op == Op::AudioDestroyStream ==> table[i].name@ == "destroyStream"@,
        table[i].op == Op::AudioWritePcm ==> table[i].name@ == "writePcm"@,
        table[i].op == Op::AudioPlay ==> table[i].name@ == "play"@,
        table[i].op == Op::AudioPause ==> table[i].name@ == "pause"@,
        table[i].op == Op::AudioStop ==> table[i].name@ == "stop"@,
        table[i].op == Op::AudioSetVolume ==> table[i].name@ == "setVolume"@,
        table[i].op == Op::AudioEndStream ==> table[i].name@ == "endStream"@,
        table[i].op == Op::AudioPoll ==> table[i].name@ == "poll"@,
{
    assert(table[i].op == ops[i]);
}

/// Every function is in one of the tables, those of the user interface first.
#[verifier::rlimit(50)]
pub proof fn law_every_function_is_listed(op: Op)
    ensures
        ui_ops().contains(op) || app_ops().contains(op) || audio_ops().contains(op),
{
    let (u, a, s) = (ui_ops(), app_ops(), audio_ops());
    assert(u[0] == Op::CreateNode);
    assert(u[1] == Op::DestroyNode);
    assert(u[2] == Op::InsertBefore);
    assert(u[3] == Op::RemoveChild);
    assert(u[4] == Op::SetStyle);
    assert(u[5] == Op::SetProp);
    assert(u[6] == Op::SetPropBatch);
    assert(u[7] == Op::SetText);
    assert(u[8] == Op::ReplaceText);
    assert(u[9] == Op::UploadTexture);
    assert(u[10] == Op::SetImage);
    assert(u[11] == Op::SetSprite);
    assert(u[12] == Op::Animate);
    assert(u[13] == Op::CancelAnim);
    assert(u[14] == Op::SetFocus);
    assert(u[15] == Op::SetActive);
    assert(u[16] == Op::HitTest);
    assert(u[17] == Op::SetCursor);
    assert(u[18] == Op::SetCursorPos);
    assert(u[19] == Op::LoadStyles);
    assert(u[20] == Op::LoadFontAtlas);
    assert(u[21] == Op::MeasureText);
    assert(u[22] == Op::DebugInspect);
    assert(u[23] == Op::DebugRectXy);
    assert(u[24] == Op::DebugRectWh);
    assert(u[25] == Op::DebugPause);
    assert(u[26] == Op::DebugStep);
    assert(u[27] == Op::LoadTileTexture);
    assert(u[28] == Op::FreeTexture);
    assert(u[29] == Op::UploadImgEntry);
    assert(u[30] == Op::DbgActive);
    assert(u[31] == Op::DbgPoll);
    assert(u[32] == Op::DbgSend);
    assert(u[33] == Op::DebugStats);
    assert(u[34] == Op::DbgShot);
    assert(u[35] == Op::SvcOpen);
    assert(u[36] == Op::SvcPoll);
    assert(u[37] == Op::SvcSend);
    assert(u[38] == Op::LoadImgFile);
    assert(u[39] == Op::VideoOpen);
    assert(u[40] == Op::VideoTick);
    assert(u[41] == Op::VideoTexture);
    assert(u[42] == Op::VideoClose);
    assert(a[0] == Op::AppTable);
    assert(a[1] == Op::AppLaunch);
    assert(a[2] == Op::AppShot);
    assert(s[0] == Op::AudioCreateStream);
    assert(s[1] == Op::AudioDestroyStream);
    assert(s[2] == Op::AudioWritePcm);
    assert(s[3] == Op::AudioPlay);
    assert(s[4] == Op::AudioPause);
    assert(s[5] == Op::AudioStop);
    assert(s[6] == Op::AudioSetVolume);
    assert(s[7] == Op::AudioEndStream);
    assert(s[8] == Op::AudioPoll);
}

/// A function reads no more arguments than it is said to take.
#[verifier::rlimit(50)]
pub proof fn law_functions_take_their_arguments(op: Op, args: Seq<Arg>, props: PropTable)
    requires
        args.len() >= nargs_of(op),
    ensures
        command_of(op, args, props) == command_of(op, args.take(nargs_of(op)), props),
{
    let some = args.take(nargs_of(op));
    assert forall|i: int| 0 <= i < nargs_of(op) implies #[trigger] some[i] == args[i] by {}
}

// ---- effects ---------------------------------------------------------------------------------

/// The interface after a call of a function with numbers, and the answer.
pub open spec fn called(m: UiModel, op: Op, args: Seq<Arg>) -> (UiModel, int) {
    match command_of(op, args, m.rules.props) {
        Some(c) => m.ran(c),
        None => (m, 0),
    }
}

/// A missing argument is zero.
#[verifier::rlimit(50)]
pub proof fn law_missing_arguments_are_zero(op: Op, args: Seq<Arg>, props: PropTable)
    requires
        args.len() < 6,
    ensures
        command_of(op, args, props) == command_of(
            op,
            args.push(Arg { int: 0, single: 0, bits: 0 }),
            props,
        ),
{
    let more = args.push(Arg { int: 0, single: 0, bits: 0 });
    assert(arg(args, 0) == arg(more, 0) && arg(args, 1) == arg(more, 1));
    assert(arg(args, 2) == arg(more, 2) && arg(args, 3) == arg(more, 3));
    assert(arg(args, 4) == arg(more, 4) && arg(args, 5) == arg(more, 5));
}

/// `createNode(kind)` makes a node of that kind and answers with its id, and
/// with 0 for a kind there is not; `destroyNode(node)` is about that node.
#[verifier::rlimit(50)]
pub proof fn law_call_of_create_and_destroy(m: UiModel, args: Seq<Arg>)
    requires
        args.len() >= 1,
        m.scene.nodes.len() == m.scene.tree.links.len(),
        m.scene.tree.slots_wf(),
    ensures
        ({
            let kind = args[0].int;
            let (n, id) = called(m, Op::CreateNode, args);
            &&& 0 <= kind <= 3 && id != 0 ==> n.scene.tree.resolves(id) is Some
                && m.scene.tree.resolves(id) is None
                && n.scene.nodes[n.scene.tree.resolves(id)->0].kind == kind
            &&& 3 < kind < 256 ==> (n, id) == (m, 0int)
            &&& id == 0 ==> n == m
        }),
        command_of(Op::DestroyNode, args, m.rules.props) == Some(Command::DestroyNode(args[0].int)),
{
    let kind = args[0].int;
    if 0 <= kind <= 3 && Scene::created(m.scene, kind as u8) is Some {
        crate::tree::law_new_ids_are_fresh(m.scene.tree, 0);
    }
}

/// `insertBefore(parent, child, anchor)` moves the second node under the first,
/// before the third; `removeChild(parent, child)` takes the second from under
/// the first.
#[verifier::rlimit(50)]
pub proof fn law_call_of_moves(m: UiModel, args: Seq<Arg>)
    requires
        args.len() >= 3,
    ensures
        called(m, Op::InsertBefore, args) == (
            m.with_scene(
                Scene::moved(
                    m.scene,
                    args[0].int as int,
                    args[1].int as int,
                    args[2].int as int,
                ),
            ),
            0int,
        ),
        called(m, Op::RemoveChild, args) == (
            m.with_scene(Scene::removed(m.scene, args[0].int as int, args[1].int as int)),
            0int,
        ),
{
}

/// Only the node in slot `s` may differ, and its place in the tree, the
/// textures and the clock do not.
pub open spec fn only_node(m: UiModel, n: UiModel, s: int) -> bool {
    &&& n.with_scene(m.scene) == m
    &&& n.scene.tree == m.scene.tree
    &&& n.scene.focused == m.scene.focused
    &&& n.scene.nodes.len() == m.scene.nodes.len()
    &&& forall|o: int|
        #![trigger n.scene.nodes[o]]
        0 <= o < m.scene.nodes.len() && o != s ==> n.scene.nodes[o] == m.scene.nodes[o]
}

/// `setStyle(node, style)` gives that node that style, one below 0 taking it
/// away; no other node changes, and nothing at all does where there is no such
/// node.
#[verifier::rlimit(50)]
pub proof fn law_call_of_set_style(m: UiModel, args: Seq<Arg>)
    requires
        args.len() >= 2,
        in_order(m.scene),
    ensures
        ({
            let (node, style) = (args[0].int, args[1].int);
            let (n, answer) = called(m, Op::SetStyle, args);
            &&& answer == 0
            &&& match m.scene.tree.resolves(node as int) {
                None => n == m,
                Some(s) => {
                    &&& n == m.with_scene(m.scene.with_style(m.rules, s, style))
                    &&& only_node(m, n, s)
                    &&& n.scene.nodes[s].style_id == (if style < 0 {
                        -1
                    } else {
                        style as int
                    })
                    &&& n.scene.nodes[s].initialized
                    &&& n.scene.nodes[s].overrides == m.scene.nodes[s].overrides
                },
            }
        }),
{
    let style = args[1].int;
    if m.scene.tree.resolves(args[0].int as int) is Some {
        let s = m.scene.tree.resolves(args[0].int as int)->0;
        let n = m.scene.nodes[s];
        let sid = if style < 0 {
            (-1) as i32
        } else {
            style
        };
        crate::looks::lemma_retargeted(
            m.scene.with_node(
                s,
                crate::scene::NodeModel { style_id: sid, initialized: true, ..n },
            ),
            m.rules,
            s,
            crate::scene::node_values(n, m.rules.styles, true),
            n.initialized,
        );
    }
    assert(m.with_scene(m.scene) == m);
}

/// `setProp(node, prop, value)` sets that property of that node to the value:
/// its bit pattern as a floating point number where the property holds one, and
/// else its integer part. It shows at once; other properties, and other nodes,
/// stay.
#[verifier::rlimit(50)]
pub proof fn law_call_of_set_prop(m: UiModel, args: Seq<Arg>, other: u8)
    requires
        args.len() >= 3,
        in_order(m.scene),
        0 <= args[1].int < 256,
        other != args[1].int,
    ensures
        ({
            let (node, prop) = (args[0].int, args[1].int as u8);
            let kind = m.rules.props.kinds@[prop as int];
            let bits = if kind == KIND_F32 {
                args[2].single
            } else {
                args[2].bits
            };
            let (n, answer) = called(m, Op::SetProp, args);
            &&& answer == 0
            &&& match m.scene.tree.resolves(node as int) {
                None => n == m,
                Some(s) => if kind == KIND_NONE {
                    n == m
                } else {
                    &&& only_node(m, n, s)
                    &&& node_value(n.scene.nodes[s], m.rules.styles, true, prop) == bits
                    &&& n.scene.nodes[s].overrides[prop as int] == Some(bits)
                    &&& node_value(n.scene.nodes[s], m.rules.styles, true, other) == node_value(
                        m.scene.nodes[s],
                        m.rules.styles,
                        true,
                        other,
                    )
                },
            }
        }),
{
    let node = args[0].int;
    if m.scene.tree.resolves(node as int) is Some {
        let s = m.scene.tree.resolves(node as int)->0;
        assert(m.scene.nodes[s].anims.len() == 256 && m.scene.nodes[s].overrides.len() == 256);
    }
    assert(m.with_scene(m.scene) == m);
}

/// `setImage(node, texture)` binds that texture to that image; one below 0 takes
/// it away. `setSprite(node, texture, frames, cols, step)` binds a sheet of that
/// many cells in that many columns, each for that many frames, from this frame
/// on.
#[verifier::rlimit(50)]
pub proof fn law_call_of_images(m: UiModel, args: Seq<Arg>)
    requires
        args.len() >= 5,
        in_order(m.scene),
        m.scene.tree.resolves(args[0].int as int) is Some,
        m.scene.nodes[m.scene.tree.resolves(args[0].int as int)->0].kind == 2,
        0 <= args[2].int <= 0xffff,
        0 < args[3].int <= 0xffff,
        0 < args[4].int <= 0xffff,
    ensures
        ({
            let s = m.scene.tree.resolves(args[0].int as int)->0;
            let tex = args[1].int;
            let known = resolves(m.table.slots, tex as int) is Some;
            let (a, _x) = called(m, Op::SetImage, args);
            let (b, _y) = called(m, Op::SetSprite, args);
            let (i, p) = (a.scene.nodes[s], b.scene.nodes[s]);
            &&& only_node(m, a, s) && only_node(m, b, s)
            &&& tex >= 0 && !known ==> a == m && b == m
            &&& tex < 0 ==> i.tex == -1 && i.sprite.frames == 0 && p.tex == -1 && p.sprite.frames
                == 0
            &&& tex >= 0 && known ==> i.tex == tex && i.sprite.frames == 0
            &&& tex >= 0 && known && args[2].int > 0 ==> {
                &&& p.tex == tex
                &&& p.sprite.frames == args[2].int
                &&& p.sprite.cols == args[3].int
                &&& p.sprite.step == args[4].int
                &&& p.sprite.start == m.frame
            }
            &&& tex >= 0 && known && args[2].int == 0 ==> p.tex == -1 && p.sprite.frames == 0
        }),
{
    assert(m.with_scene(m.scene) == m);
}

/// `animate(node, prop, to, ms, easing, delay)` starts an animation of that
/// property of that node from what it shows to the value, over that many
/// milliseconds after that delay, along that curve; lengths of time below zero
/// are none. `cancelAnim(anim)` stops that animation.
#[verifier::rlimit(50)]
pub proof fn law_call_of_animations(m: UiModel, args: Seq<Arg>)
    requires
        args.len() >= 6,
        in_order(m.scene),
        0 <= args[1].int < 256,
        0 <= args[4].int < 256,
    ensures
        ({
            let prop = args[1].int as u8;
            let to = if m.rules.props.kinds@[prop as int] == KIND_F32 {
                args[2].single
            } else {
                args[2].bits
            };
            let ms = |v: i32|
                if v < 0 {
                    0u32
                } else {
                    v as u32
                };
            let (n, anim) = called(m, Op::Animate, args);
            let (scene, id) = m.scene.with_animation(
                m.rules,
                args[0].int as int,
                prop,
                to,
                ms(args[3].int),
                args[4].int as u8,
                ms(args[5].int),
            );
            &&& n == m.with_scene(scene) && anim == id
            &&& anim > 0 ==> ({
                let s = m.scene.tree.resolves(args[0].int as int)->0;
                let at = crate::anim::Anims::place(n.scene.tracks, anim);
                let t = n.scene.tracks[at->0];
                &&& m.scene.tree.resolves(args[0].int as int) is Some
                &&& at is Some
                &&& t.alive && t.node == m.scene.tree.id_of(s) as i32 && t.prop == prop
                &&& t.explicit
                &&& t.from == node_value(m.scene.nodes[s], m.rules.styles, true, prop)
                &&& t.to == to
                &&& t.dur_ms == ms(args[3].int) && t.easing == args[4].int && t.delay_ms == ms(
                    args[5].int,
                )
                &&& t.hz == m.rules.hz
            })
        }),
        called(m, Op::CancelAnim, args) == (
            m.with_scene(m.scene.with_anim_cancelled(args[0].int as int)),
            0int,
        ),
{
    let prop = args[1].int as u8;
    let (n, anim) = called(m, Op::Animate, args);
    if anim > 0 {
        let s = m.scene.tree.resolves(args[0].int as int)->0;
        let spec = crate::anim::TrackSpec {
            node: m.scene.tree.id_of(s) as i32,
            prop,
            is_color: m.rules.props.is_color(prop),
            explicit: true,
            from: node_value(m.scene.nodes[s], m.rules.styles, true, prop),
            to: bits_for(m.rules.props.kind_of(prop), args[2]),
            dur_ms: crate::bridge::span(args[3].int),
            easing: args[4].int as u8,
            delay_ms: crate::bridge::span(args[5].int),
            hz: m.rules.hz,
        };
        crate::anim::law_spawned_track_does(m.scene.tracks, spec);
    }
}

/// `setFocus(node)` moves the focus there.
#[verifier::rlimit(50)]
pub proof fn law_call_of_focus(m: UiModel, args: Seq<Arg>)
    requires
        args.len() >= 1,
        sound(m.scene),
        one_focus(m.scene),
    ensures
        ({
            let node = args[0].int;
            let (f, _x) = called(m, Op::SetFocus, args);
            &&& f == m.with_scene(m.scene.focus_moved(m.rules, node))
            &&& node == 0 || m.scene.tree.resolves(node as int) is Some ==> f.scene.focused == node
            &&& one_focus(f.scene)
        }),
{
    assert(m.scene.tree.alive(1));
    crate::looks::law_focus_is_on_one_node(m.scene, m.rules, args[0].int, 1);
}

/// `setActive(node, on)` presses that node for anything but 0 and else releases
/// it.
#[verifier::rlimit(50)]
pub proof fn law_call_of_press(m: UiModel, args: Seq<Arg>)
    requires
        args.len() >= 2,
        in_order(m.scene),
    ensures
        ({
            let node = args[0].int;
            let (p, _y) = called(m, Op::SetActive, args);
            match m.scene.tree.resolves(node as int) {
                None => p == m,
                Some(s) => {
                    &&& only_node(m, p, s)
                    &&& p.scene.nodes[s].active == (args[1].int != 0)
                    &&& p.scene.nodes[s].style_id == m.scene.nodes[s].style_id
                    &&& p.scene.nodes[s].overrides == m.scene.nodes[s].overrides
                },
            }
        }),
{
    assert(m.with_scene(m.scene) == m);
    let on = args[1].int != 0;
    if m.scene.tree.resolves(args[0].int as int) is Some {
        let s = m.scene.tree.resolves(args[0].int as int)->0;
        let n = m.scene.nodes[s];
        crate::looks::lemma_retargeted(
            m.scene.with_node(s, crate::scene::NodeModel { active: on, ..n }),
            m.rules,
            s,
            crate::scene::node_values(n, m.rules.styles, true),
            true,
        );
    }
}

/// `setCursor(texture, hot x, hot y, width, height)` shows that live texture as
/// the pointer, or none, with that hot spot and size, where a size that is not
/// above zero is that of the texture; it does not move it.
/// `setCursorPos(x, y)` moves it, inside of what positions can be.
#[verifier::rlimit(50)]
pub proof fn law_call_of_cursor(m: UiModel, args: Seq<Arg>)
    requires
        args.len() >= 5,
    ensures
        ({
            let (a, _x) = called(m, Op::SetCursor, args);
            let (b, _y) = called(m, Op::SetCursorPos, args);
            let known = resolves(m.table.slots, args[0].int as int) is Some;
            let size = |v: u32|
                if above_zero(v) {
                    v
                } else {
                    0
                };
            &&& a.cursor.tex == (if known {
                args[0].int as int
            } else {
                -1
            })
            &&& a.cursor.hot == (args[1].single, args[2].single)
            &&& a.cursor.size == (size(args[3].single), size(args[4].single))
            &&& a.cursor.pos == m.cursor.pos
            &&& a == (UiModel { cursor: a.cursor, ..m })
            &&& b == (UiModel { cursor: b.cursor, ..m })
            &&& b.cursor == (Cursor { pos: b.cursor.pos, ..m.cursor })
            &&& in_bounds(args[0].single) ==> b.cursor.pos.0 == args[0].single
            &&& in_bounds(args[1].single) ==> b.cursor.pos.1 == args[1].single
        }),
{
}

/// A position that needs no clamping.
pub open spec fn in_bounds(bits: u32) -> bool {
    !is_nan(bits) && total_key(F32_COORD_MIN) <= total_key(bits) <= total_key(F32_COORD_MAX)
}

/// `debugInspect(node)` looks at that node, 0 ending it; `debugPause(on)` stops
/// the clock for anything but 0, and `debugStep()` lets one frame of a stopped
/// one pass; `freeTexture(texture)` releases that texture.
#[verifier::rlimit(50)]
pub proof fn law_call_of_tools(m: UiModel, args: Seq<Arg>)
    requires
        args.len() >= 1,
    ensures
        ({
            let (i, _x) = called(m, Op::DebugInspect, args);
            let (p, _y) = called(m, Op::DebugPause, args);
            let (s, _z) = called(m, Op::DebugStep, args);
            let (f, _w) = called(m, Op::FreeTexture, args);
            &&& i == (UiModel { inspector: i.inspector, ..m })
            &&& i.inspector.id == args[0].int && i.inspector.rect is None
            &&& p == (UiModel { paused: p.paused, step_pending: p.step_pending, ..m })
            &&& p.paused == (args[0].int != 0)
            &&& args[0].int == 0 ==> !p.step_pending && p.advances()
            &&& s == (UiModel { step_pending: s.step_pending, ..m })
            &&& m.paused ==> s.advances()
            &&& f == m.without_texture(args[0].int as int)
        }),
{
}

/// `debugRectXY()` and `debugRectWH()` answer with place and size of the node
/// that is inspected, 16 bits each, and with -1 where there is none.
#[verifier::rlimit(50)]
pub proof fn law_call_of_rectangles(m: UiModel, args: Seq<Arg>)
    ensures
        ({
            let (a, xy) = called(m, Op::DebugRectXy, args);
            let (b, wh) = called(m, Op::DebugRectWh, args);
            &&& a == m && b == m
            &&& m.inspector.rect is None ==> xy == -1 && wh == -1
            &&& m.inspector.rect matches Some(r) ==> {
                &&& (xy - r.x) % 0x1_0000 == 0
                &&& -0x8000_0000 <= xy < 0x8000_0000 && -0x8000_0000 <= wh < 0x8000_0000
                &&& -0x8000 <= r.y < 0x8000 && 0 <= r.x < 0x1_0000 ==> xy == r.x + 0x1_0000 * r.y
                &&& 0 <= r.w < 0x1_0000 && 0 <= r.h < 0x8000 ==> wh == r.w + 0x1_0000 * r.h
            }
        }),
{
}

/// A new interface has the focus nowhere.
pub proof fn law_new_interface_has_no_focus(m: UiModel, props: PropTable, density: u32)
    requires
        sound(m.scene),
        m.is_new(props, density),
    ensures
        one_focus(m.scene),
{
    assert forall|s: int| #![trigger m.scene.nodes[s]] m.scene.tree.alive(s) implies (
    m.scene.nodes[s].focused <==> m.scene.focused == m.scene.tree.id_of(s)) by {
        assert(m.scene.tree.links[s].alive);
        assert(s == 1);
    }
}

} // verus!
