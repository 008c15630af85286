//! What scripts see of the host: the table of its functions, and how their
//! arguments become operations on the user interface.
use crate::commands::packed_pair;
use crate::constants::{F32_COORD_MAX, F32_COORD_MIN};
use crate::fbits::clamped;
use crate::scene::Scene;
use crate::style::{PropTable, KIND_F32, KIND_NONE};
use crate::texture::{image_texture, img_entry_texture, resolves, tile_texture};
use crate::ui::{Cursor, Inspector, Ui, UiModel};
use vstd::prelude::*;

verus! {

// ---- the table ----------------------------------------------------------------------------

/// A function of the host.
#[derive(Clone, Copy, PartialEq, Eq, Debug, Structural)]
pub enum Op {
    CreateNode,
    DestroyNode,
    InsertBefore,
    RemoveChild,
    SetStyle,
    SetProp,
    SetPropBatch,
    SetText,
    ReplaceText,
    UploadTexture,
    SetImage,
    SetSprite,
    Animate,
    CancelAnim,
    SetFocus,
    SetActive,
    HitTest,
    SetCursor,
    SetCursorPos,
    LoadStyles,
    LoadFontAtlas,
    MeasureText,
    DebugInspect,
    DebugRectXy,
    DebugRectWh,
    DebugPause,
    DebugStep,
    LoadTileTexture,
    FreeTexture,
    UploadImgEntry,
    DbgActive,
    DbgPoll,
    DbgSend,
    DebugStats,
    DbgShot,
    SvcOpen,
    SvcPoll,
    SvcSend,
    LoadImgFile,
    VideoOpen,
    VideoTick,
    VideoTexture,
    VideoClose,
    AppTable,
    AppLaunch,
    AppShot,
    AudioCreateStream,
    AudioDestroyStream,
    AudioWritePcm,
    AudioPlay,
    AudioPause,
    AudioStop,
    AudioSetVolume,
    AudioEndStream,
    AudioPoll,
}

/// A function as scripts see it: its name and how many arguments it takes.
#[derive(Clone, Copy)]
pub struct OpEntry {
    pub op: Op,
    pub name: &'static str,
    pub nargs: i32,
}

/// The name of a function.
pub open spec fn name_of(op: Op) -> Seq<char> {
    match op {
        Op::CreateNode => "createNode"@,
        Op::DestroyNode => "destroyNode"@,
        Op::InsertBefore => "insertBefore"@,
        Op::RemoveChild => "removeChild"@,
        Op::SetStyle => "setStyle"@,
        Op::SetProp => "setProp"@,
        Op::SetPropBatch => "setPropBatch"@,
        Op::SetText => "setText"@,
        Op::ReplaceText => "replaceText"@,
        Op::UploadTexture => "uploadTexture"@,
        Op::SetImage => "setImage"@,
        Op::SetSprite => "setSprite"@,
        Op::Animate => "animate"@,
        Op::CancelAnim => "cancelAnim"@,
        Op::SetFocus => "setFocus"@,
        Op::SetActive => "setActive"@,
        Op::HitTest => "hitTest"@,
        Op::SetCursor => "setCursor"@,
        Op::SetCursorPos => "setCursorPos"@,
        Op::LoadStyles => "loadStyles"@,
        Op::LoadFontAtlas => "loadFontAtlas"@,
        Op::MeasureText => "measureText"@,
        Op::DebugInspect => "debugInspect"@,
        Op::DebugRectXy => "debugRectXY"@,
        Op::DebugRectWh => "debugRectWH"@,
        Op::DebugPause => "debugPause"@,
        Op::DebugStep => "debugStep"@,
        Op::LoadTileTexture => "loadTileTexture"@,
        Op::FreeTexture => "freeTexture"@,
        Op::UploadImgEntry => "uploadImgEntry"@,
        Op::DbgActive => "__dbgActive"@,
        Op::DbgPoll => "__dbgPoll"@,
        Op::DbgSend => "__dbgSend"@,
        Op::DebugStats => "debugStats"@,
        Op::DbgShot => "__dbgShot"@,
        Op::SvcOpen => "svcOpen"@,
        Op::SvcPoll => "svcPoll"@,
        Op::SvcSend => "svcSend"@,
        Op::LoadImgFile => "loadImgFile"@,
        Op::VideoOpen => "videoOpen"@,
        Op::VideoTick => "videoTick"@,
        Op::VideoTexture => "videoTexture"@,
        Op::VideoClose => "videoClose"@,
        Op::AppTable => "appTable"@,
        Op::AppLaunch => "appLaunch"@,
        Op::AppShot => "appShot"@,
        Op::AudioCreateStream => "createStream"@,
        Op::AudioDestroyStream => "destroyStream"@,
        Op::AudioWritePcm => "writePcm"@,
        Op::AudioPlay => "play"@,
        Op::AudioPause => "pause"@,
        Op::AudioStop => "stop"@,
        Op::AudioSetVolume => "setVolume"@,
        Op::AudioEndStream => "endStream"@,
        Op::AudioPoll => "poll"@,
    }
}

/// How many arguments a function takes.
pub open spec fn nargs_of(op: Op) -> int {
    match op {
        Op::CreateNode => 1,
        Op::DestroyNode => 1,
        Op::InsertBefore => 3,
        Op::RemoveChild => 2,
        Op::SetStyle => 2,
        Op::SetProp => 3,
        Op::SetPropBatch => 1,
        Op::SetText => 2,
        Op::ReplaceText => 2,
        Op::UploadTexture => 4,
        Op::SetImage => 2,
        Op::SetSprite => 5,
        Op::Animate => 6,
        Op::CancelAnim => 1,
        Op::SetFocus => 1,
        Op::SetActive => 2,
        Op::HitTest => 2,
        Op::SetCursor => 5,
        Op::SetCursorPos => 2,
        Op::LoadStyles => 1,
        Op::LoadFontAtlas => 1,
        Op::MeasureText => 2,
        Op::DebugInspect => 1,
        Op::DebugRectXy => 0,
        Op::DebugRectWh => 0,
        Op::DebugPause => 1,
        Op::DebugStep => 0,
        Op::LoadTileTexture => 2,
        Op::FreeTexture => 1,
        Op::UploadImgEntry => 1,
        Op::DbgActive => 0,
        Op::DbgPoll => 0,
        Op::DbgSend => 1,
        Op::DebugStats => 0,
        Op::DbgShot => 0,
        Op::SvcOpen => 1,
        Op::SvcPoll => 0,
        Op::SvcSend => 1,
        Op::LoadImgFile => 1,
        Op::VideoOpen => 1,
        Op::VideoTick => 0,
        Op::VideoTexture => 0,
        Op::VideoClose => 0,
        Op::AppTable => 0,
        Op::AppLaunch => 1,
        Op::AppShot => 0,
        Op::AudioCreateStream => 2,
        Op::AudioDestroyStream => 1,
        Op::AudioWritePcm => 2,
        Op::AudioPlay => 1,
        Op::AudioPause => 1,
        Op::AudioStop => 1,
        Op::AudioSetVolume => 2,
        Op::AudioEndStream => 1,
        Op::AudioPoll => 0,
    }
}

/// The functions of every package, in order.
pub open spec fn ui_ops() -> Seq<Op> {
    seq![
        Op::CreateNode,
        Op::DestroyNode,
        Op::InsertBefore,
        Op::RemoveChild,
        Op::SetStyle,
        Op::SetProp,
        Op::SetPropBatch,
        Op::SetText,
        Op::ReplaceText,
        Op::UploadTexture,
        Op::SetImage,
        Op::SetSprite,
        Op::Animate,
        Op::CancelAnim,
        Op::SetFocus,
        Op::SetActive,
        Op::HitTest,
        Op::SetCursor,
        Op::SetCursorPos,
        Op::LoadStyles,
        Op::LoadFontAtlas,
        Op::MeasureText,
        Op::DebugInspect,
        Op::DebugRectXy,
        Op::DebugRectWh,
        Op::DebugPause,
        Op::DebugStep,
        Op::LoadTileTexture,
        Op::FreeTexture,
        Op::UploadImgEntry,
        Op::DbgActive,
        Op::DbgPoll,
        Op::DbgSend,
        Op::DebugStats,
        Op::DbgShot,
        Op::SvcOpen,
        Op::SvcPoll,
        Op::SvcSend,
        Op::LoadImgFile,
        Op::VideoOpen,
        Op::VideoTick,
        Op::VideoTexture,
        Op::VideoClose,
    ]
}

/// The functions that switch apps.
pub open spec fn app_ops() -> Seq<Op> {
    seq![Op::AppTable, Op::AppLaunch, Op::AppShot]
}

/// The functions for sound, a table of their own.
pub open spec fn audio_ops() -> Seq<Op> {
    seq![
        Op::AudioCreateStream,
        Op::AudioDestroyStream,
        Op::AudioWritePcm,
        Op::AudioPlay,
        Op::AudioPause,
        Op::AudioStop,
        Op::AudioSetVolume,
        Op::AudioEndStream,
        Op::AudioPoll,
    ]
}

/// A table lists these functions under their names.
pub open spec fn lists(table: Seq<OpEntry>, ops: Seq<Op>) -> bool {
    &&& table.len() == ops.len()
    &&& forall|i: int|
        #![trigger table[i]]
        0 <= i < ops.len() ==> table[i].op == ops[i] && table[i].name@ == name_of(ops[i])
            && table[i].nargs == nargs_of(ops[i])
}

/// The entry of a function.
pub fn op_entry(op: Op) -> (e: OpEntry)
    ensures
        e.op == op,
        e.name@ == name_of(op),
        e.nargs == nargs_of(op),
{
    match op {
        Op::CreateNode => OpEntry { op, name: "createNode", nargs: 1 },
        Op::DestroyNode => OpEntry { op, name: "destroyNode", nargs: 1 },
        Op::InsertBefore => OpEntry { op, name: "insertBefore", nargs: 3 },
        Op::RemoveChild => OpEntry { op, name: "removeChild", nargs: 2 },
        Op::SetStyle => OpEntry { op, name: "setStyle", nargs: 2 },
        Op::SetProp => OpEntry { op, name: "setProp", nargs: 3 },
        Op::SetPropBatch => OpEntry { op, name: "setPropBatch", nargs: 1 },
        Op::SetText => OpEntry { op, name: "setText", nargs: 2 },
        Op::ReplaceText => OpEntry { op, name: "replaceText", nargs: 2 },
        Op::UploadTexture => OpEntry { op, name: "uploadTexture", nargs: 4 },
        Op::SetImage => OpEntry { op, name: "setImage", nargs: 2 },
        Op::SetSprite => OpEntry { op, name: "setSprite", nargs: 5 },
        Op::Animate => OpEntry { op, name: "animate", nargs: 6 },
        Op::CancelAnim => OpEntry { op, name: "cancelAnim", nargs: 1 },
        Op::SetFocus => OpEntry { op, name: "setFocus", nargs: 1 },
        Op::SetActive => OpEntry { op, name: "setActive", nargs: 2 },
        Op::HitTest => OpEntry { op, name: "hitTest", nargs: 2 },
        Op::SetCursor => OpEntry { op, name: "setCursor", nargs: 5 },
        Op::SetCursorPos => OpEntry { op, name: "setCursorPos", nargs: 2 },
        Op::LoadStyles => OpEntry { op, name: "loadStyles", nargs: 1 },
        Op::LoadFontAtlas => OpEntry { op, name: "loadFontAtlas", nargs: 1 },
        Op::MeasureText => OpEntry { op, name: "measureText", nargs: 2 },
        Op::DebugInspect => OpEntry { op, name: "debugInspect", nargs: 1 },
        Op::DebugRectXy => OpEntry { op, name: "debugRectXY", nargs: 0 },
        Op::DebugRectWh => OpEntry { op, name: "debugRectWH", nargs: 0 },
        Op::DebugPause => OpEntry { op, name: "debugPause", nargs: 1 },
        Op::DebugStep => OpEntry { op, name: "debugStep", nargs: 0 },
        Op::LoadTileTexture => OpEntry { op, name: "loadTileTexture", nargs: 2 },
        Op::FreeTexture => OpEntry { op, name: "freeTexture", nargs: 1 },
        Op::UploadImgEntry => OpEntry { op, name: "uploadImgEntry", nargs: 1 },
        Op::DbgActive => OpEntry { op, name: "__dbgActive", nargs: 0 },
        Op::DbgPoll => OpEntry { op, name: "__dbgPoll", nargs: 0 },
        Op::DbgSend => OpEntry { op, name: "__dbgSend", nargs: 1 },
        Op::DebugStats => OpEntry { op, name: "debugStats", nargs: 0 },
        Op::DbgShot => OpEntry { op, name: "__dbgShot", nargs: 0 },
        Op::SvcOpen => OpEntry { op, name: "svcOpen", nargs: 1 },
        Op::SvcPoll => OpEntry { op, name: "svcPoll", nargs: 0 },
        Op::SvcSend => OpEntry { op, name: "svcSend", nargs: 1 },
        Op::LoadImgFile => OpEntry { op, name: "loadImgFile", nargs: 1 },
        Op::VideoOpen => OpEntry { op, name: "videoOpen", nargs: 1 },
        Op::VideoTick => OpEntry { op, name: "videoTick", nargs: 0 },
        Op::VideoTexture => OpEntry { op, name: "videoTexture", nargs: 0 },
        Op::VideoClose => OpEntry { op, name: "videoClose", nargs: 0 },
        Op::AppTable => OpEntry { op, name: "appTable", nargs: 0 },
        Op::AppLaunch => OpEntry { op, name: "appLaunch", nargs: 1 },
        Op::AppShot => OpEntry { op, name: "appShot", nargs: 0 },
        Op::AudioCreateStream => OpEntry { op, name: "createStream", nargs: 2 },
        Op::AudioDestroyStream => OpEntry { op, name: "destroyStream", nargs: 1 },
        Op::AudioWritePcm => OpEntry { op, name: "writePcm", nargs: 2 },
        Op::AudioPlay => OpEntry { op, name: "play", nargs: 1 },
        Op::AudioPause => OpEntry { op, name: "pause", nargs: 1 },
        Op::AudioStop => OpEntry { op, name: "stop", nargs: 1 },
        Op::AudioSetVolume => OpEntry { op, name: "setVolume", nargs: 2 },
        Op::AudioEndStream => OpEntry { op, name: "endStream", nargs: 1 },
        Op::AudioPoll => OpEntry { op, name: "poll", nargs: 0 },
    }
}

/// The functions that a package offers to its scripts. Only packages of
/// several apps have the ones that switch apps.
pub fn register(multi: bool) -> (table: Vec<OpEntry>)
    ensures
        lists(
            table@,
            if multi {
                ui_ops() + app_ops()
            } else {
                ui_ops()
            },
        ),
{
    let mut table: Vec<OpEntry> = Vec::new();
    table.push(op_entry(Op::CreateNode));
    table.push(op_entry(Op::DestroyNode));
    table.push(op_entry(Op::InsertBefore));
    table.push(op_entry(Op::RemoveChild));
    table.push(op_entry(Op::SetStyle));
    table.push(op_entry(Op::SetProp));
    table.push(op_entry(Op::SetPropBatch));
    table.push(op_entry(Op::SetText));
    table.push(op_entry(Op::ReplaceText));
    table.push(op_entry(Op::UploadTexture));
    table.push(op_entry(Op::SetImage));
    table.push(op_entry(Op::SetSprite));
    table.push(op_entry(Op::Animate));
    table.push(op_entry(Op::CancelAnim));
    table.push(op_entry(Op::SetFocus));
    table.push(op_entry(Op::SetActive));
    table.push(op_entry(Op::HitTest));
    table.push(op_entry(Op::SetCursor));
    table.push(op_entry(Op::SetCursorPos));
    table.push(op_entry(Op::LoadStyles));
    table.push(op_entry(Op::LoadFontAtlas));
    table.push(op_entry(Op::MeasureText));
    table.push(op_entry(Op::DebugInspect));
    table.push(op_entry(Op::DebugRectXy));
    table.push(op_entry(Op::DebugRectWh));
    table.push(op_entry(Op::DebugPause));
    table.push(op_entry(Op::DebugStep));
    table.push(op_entry(Op::LoadTileTexture));
    table.push(op_entry(Op::FreeTexture));
    table.push(op_entry(Op::UploadImgEntry));
    table.push(op_entry(Op::DbgActive));
    table.push(op_entry(Op::DbgPoll));
    table.push(op_entry(Op::DbgSend));
    table.push(op_entry(Op::DebugStats));
    table.push(op_entry(Op::DbgShot));
    table.push(op_entry(Op::SvcOpen));
    table.push(op_entry(Op::SvcPoll));
    table.push(op_entry(Op::SvcSend));
    table.push(op_entry(Op::LoadImgFile));
    table.push(op_entry(Op::VideoOpen));
    table.push(op_entry(Op::VideoTick));
    table.push(op_entry(Op::VideoTexture));
    table.push(op_entry(Op::VideoClose));
    if multi {
        table.push(op_entry(Op::AppTable));
        table.push(op_entry(Op::AppLaunch));
        table.push(op_entry(Op::AppShot));
    }
    table
}

/// The functions for sound.
pub fn register_audio() -> (table: Vec<OpEntry>)
    ensures
        lists(table@, audio_ops()),
{
    let mut table: Vec<OpEntry> = Vec::new();
    table.push(op_entry(Op::AudioCreateStream));
    table.push(op_entry(Op::AudioDestroyStream));
    table.push(op_entry(Op::AudioWritePcm));
    table.push(op_entry(Op::AudioPlay));
    table.push(op_entry(Op::AudioPause));
    table.push(op_entry(Op::AudioStop));
    table.push(op_entry(Op::AudioSetVolume));
    table.push(op_entry(Op::AudioEndStream));
    table.push(op_entry(Op::AudioPoll));
    table
}

/// A package of one app has none of the functions that switch apps, and
/// otherwise the same ones.
pub proof fn law_single_app_cannot_switch(i: int)
    requires
        0 <= i < ui_ops().len(),
    ensures
        !app_ops().contains(ui_ops()[i]),
        (ui_ops() + app_ops())[i] == ui_ops()[i],
{
}

// ---- arguments ------------------------------------------------------------------------------

/// A number that a script passed, in the forms that functions read it in.
#[derive(Clone, Copy)]
pub struct Arg {
    /// Wrapped to 32 bits.
    pub int: i32,
    /// Bit pattern of the nearest floating point number.
    pub single: u32,
    /// The integer part, cut to 32 bits.
    pub bits: u32,
}

/// An argument; a missing one is zero.
pub open spec fn arg(args: Seq<Arg>, i: int) -> Arg {
    if i < args.len() {
        args[i]
    } else {
        Arg { int: 0, single: 0, bits: 0 }
    }
}

pub fn arg_at(args: &[Arg], i: usize) -> (a: Arg)
    ensures
        a == arg(args@, i as int),
{
    if i < args.len() {
        args[i]
    } else {
        Arg { int: 0, single: 0, bits: 0 }
    }
}

/// The lowest eight bits.
pub open spec fn low8(v: i32) -> u8 {
    (v as int % 256) as u8
}

fn to_low8(v: i32) -> (r: u8)
    ensures
        r == low8(v),
{
    ((v as i64 + 0x8000_0000) % 256) as u8
}

/// The same 32 bits without a sign.
pub open spec fn unsigned(v: i32) -> u32 {
    (if v < 0 {
        v + 0x1_0000_0000
    } else {
        v as int
    }) as u32
}

fn to_unsigned(v: i32) -> (r: u32)
    ensures
        r == unsigned(v),
{
    if v < 0 {
        (v as i64 + 0x1_0000_0000) as u32
    } else {
        v as u32
    }
}

/// A length of time; there is none below zero.
pub open spec fn span(v: i32) -> u32 {
    if v < 0 {
        0
    } else {
        v as u32
    }
}

fn to_span(v: i32) -> (r: u32)
    ensures
        r == span(v),
{
    if v < 0 {
        0
    } else {
        v as u32
    }
}

/// The bits of a property value, as the sort of the property has them.
pub open spec fn bits_for(kind: u8, a: Arg) -> u32 {
    if kind == KIND_F32 {
        a.single
    } else {
        a.bits
    }
}

/// The bits of a property value.
pub fn prop_bits(kind: u8, a: Arg) -> (r: u32)
    ensures
        r == bits_for(kind, a),
{
    if kind == KIND_F32 {
        a.single
    } else {
        a.bits
    }
}

/// The part of a buffer that a view of it stands for: offset and length.
pub fn view_range(off: i32, len: i32, buffer: usize) -> (r: Option<(usize, usize)>)
    ensures
        r is Some <==> 0 <= off && 0 <= len && off + len <= buffer,
        r matches Some((o, n)) ==> o == off && n == len,
{
    if off < 0 || len < 0 {
        return None;
    }
    let (o, n): (usize, usize) = (off as usize, len as usize);
    if n > buffer || o > buffer - n {
        return None;
    }
    Some((o, n))
}

// ---- operations --------------------------------------------------------------------------------

/// An operation with its arguments.
pub enum Command {
    CreateNode(u8),
    DestroyNode(i32),
    InsertBefore(i32, i32, i32),
    RemoveChild(i32, i32),
    SetStyle(i32, i32),
    SetProp(i32, u8, u32),
    FreeTexture(i32),
    SetImage(i32, i32),
    SetSprite(i32, i32, u32, u32, u32),
    Animate(i32, u8, u32, u32, u8, u32),
    CancelAnim(i32),
    SetFocus(i32),
    SetActive(i32, bool),
    SetCursor(i32, u32, u32, u32, u32),
    SetCursorPos(u32, u32),
    DebugInspect(i32),
    DebugRectXy,
    DebugRectWh,
    DebugPause(bool),
    DebugStep,
}

/// The operation that a call of a function with numbers stands for; `None` for
/// functions that take other things.
pub open spec fn command_of(op: Op, args: Seq<Arg>, props: PropTable) -> Option<Command> {
    let a = |i: int| arg(args, i).int;
    let f = |i: int| arg(args, i).single;
    let prop = low8(a(1));
    let value = bits_for(props.kind_of(prop), arg(args, 2));
    match op {
        Op::CreateNode => Some(Command::CreateNode(low8(a(0)))),
        Op::DestroyNode => Some(Command::DestroyNode(a(0))),
        Op::InsertBefore => Some(Command::InsertBefore(a(0), a(1), a(2))),
        Op::RemoveChild => Some(Command::RemoveChild(a(0), a(1))),
        Op::SetStyle => Some(Command::SetStyle(a(0), a(1))),
        Op::SetProp => Some(Command::SetProp(a(0), prop, value)),
        Op::FreeTexture => Some(Command::FreeTexture(a(0))),
        Op::SetImage => Some(Command::SetImage(a(0), a(1))),
        Op::SetSprite => Some(
            Command::SetSprite(a(0), a(1), unsigned(a(2)), unsigned(a(3)), unsigned(a(4))),
        ),
        Op::Animate => Some(
            Command::Animate(a(0), prop, value, span(a(3)), low8(a(4)), span(a(5))),
        ),
        Op::CancelAnim => Some(Command::CancelAnim(a(0))),
        Op::SetFocus => Some(Command::SetFocus(a(0))),
        Op::SetActive => Some(Command::SetActive(a(0), a(1) != 0)),
        Op::SetCursor => Some(Command::SetCursor(a(0), f(1), f(2), f(3), f(4))),
        Op::SetCursorPos => Some(Command::SetCursorPos(f(0), f(1))),
        Op::DebugInspect => Some(Command::DebugInspect(a(0))),
        Op::DebugRectXy => Some(Command::DebugRectXy),
        Op::DebugRectWh => Some(Command::DebugRectWh),
        Op::DebugPause => Some(Command::DebugPause(a(0) != 0)),
        Op::DebugStep => Some(Command::DebugStep),
        _ => None,
    }
}

/// Reads a call as an operation.
pub fn decode(op: Op, args: &[Arg], props: &PropTable) -> (c: Option<Command>)
    requires
        props.wf(),
    ensures
        c == command_of(op, args@, *props),
{
    let (a0, a1, a2): (i32, i32, i32) = (
        arg_at(args, 0).int,
        arg_at(args, 1).int,
        arg_at(args, 2).int,
    );
    let (a3, a4, a5): (i32, i32, i32) = (
        arg_at(args, 3).int,
        arg_at(args, 4).int,
        arg_at(args, 5).int,
    );
    let prop: u8 = to_low8(a1);
    let value: u32 = prop_bits(props.kinds[prop as usize], arg_at(args, 2));
    match op {
        Op::CreateNode => Some(Command::CreateNode(to_low8(a0))),
        Op::DestroyNode => Some(Command::DestroyNode(a0)),
        Op::InsertBefore => Some(Command::InsertBefore(a0, a1, a2)),
        Op::RemoveChild => Some(Command::RemoveChild(a0, a1)),
        Op::SetStyle => Some(Command::SetStyle(a0, a1)),
        Op::SetProp => Some(Command::SetProp(a0, prop, value)),
        Op::FreeTexture => Some(Command::FreeTexture(a0)),
        Op::SetImage => Some(Command::SetImage(a0, a1)),
        Op::SetSprite => Some(
            Command::SetSprite(a0, a1, to_unsigned(a2), to_unsigned(a3), to_unsigned(a4)),
        ),
        Op::Animate => Some(
            Command::Animate(a0, prop, value, to_span(a3), to_low8(a4), to_span(a5)),
        ),
        Op::CancelAnim => Some(Command::CancelAnim(a0)),
        Op::SetFocus => Some(Command::SetFocus(a0)),
        Op::SetActive => Some(Command::SetActive(a0, a1 != 0)),
        Op::SetCursor => Some(
            Command::SetCursor(
                a0,
                arg_at(args, 1).single,
                arg_at(args, 2).single,
                arg_at(args, 3).single,
                arg_at(args, 4).single,
            ),
        ),
        Op::SetCursorPos => Some(
            Command::SetCursorPos(arg_at(args, 0).single, arg_at(args, 1).single),
        ),
        Op::DebugInspect => Some(Command::DebugInspect(a0)),
        Op::DebugRectXy => Some(Command::DebugRectXy),
        Op::DebugRectWh => Some(Command::DebugRectWh),
        Op::DebugPause => Some(Command::DebugPause(a0 != 0)),
        Op::DebugStep => Some(Command::DebugStep),
        _ => None,
    }
}

impl UiModel {
    /// The interface after an operation other than destroying a node, and the
    /// answer; 0 where there is none.
    pub open spec fn ran(self, c: Command) -> (UiModel, int) {
        let r = self.rules;
        match c {
            Command::CreateNode(kind) => match Scene::created(self.scene, kind) {
                Some((m, s)) if kind <= crate::constants::NODE_SURFACE => (
                    self.with_scene(m),
                    m.tree.id_of(s),
                ),
                _ => (self, 0),
            },
            Command::DestroyNode(_id) => (self, 0),
            Command::InsertBefore(parent, child, anchor) => (
                self.with_scene(
                    Scene::moved(self.scene, parent as int, child as int, anchor as int),
                ),
                0,
            ),
            Command::RemoveChild(parent, child) => (
                self.with_scene(Scene::removed(self.scene, parent as int, child as int)),
                0,
            ),
            Command::SetStyle(id, style) => (
                self.at_node(id, |s: int| self.scene.with_style(r, s, style)),
                0,
            ),
            Command::SetProp(id, prop, bits) => (self.with_prop_set(id, prop, bits), 0),
            Command::FreeTexture(handle) => (self.without_texture(handle as int), 0),
            Command::SetImage(id, tex) => (
                self.with_scene(
                    self.scene.with_image(
                        id as int,
                        tex,
                        resolves(self.table.slots, tex as int) is Some,
                    ),
                ),
                0,
            ),
            Command::SetSprite(id, atlas, frames, cols, step) => (
                self.with_scene(
                    self.scene.with_sprite(
                        id as int,
                        atlas,
                        resolves(self.table.slots, atlas as int) is Some,
                        frames,
                        cols,
                        step,
                        self.frame,
                    ),
                ),
                0,
            ),
            Command::Animate(id, prop, to, dur, easing, delay) => {
                let (m, anim) = self.scene.with_animation(r, id as int, prop, to, dur, easing, delay);
                (self.with_scene(m), anim)
            },
            Command::CancelAnim(anim) => (
                self.with_scene(self.scene.with_anim_cancelled(anim as int)),
                0,
            ),
            Command::SetFocus(id) => (self.with_scene(self.scene.focus_moved(r, id)), 0),
            Command::SetActive(id, on) => (
                self.at_node(id, |s: int| self.scene.with_active(r, s, on)),
                0,
            ),
            Command::SetCursor(tex, hx, hy, w, h) => (
                UiModel {
                    cursor: Cursor {
                        tex: if resolves(self.table.slots, tex as int) is Some {
                            tex
                        } else {
                            (-1) as i32
                        },
                        hot: (hx, hy),
                        size: (
                            crate::commands::size_or_zero(w),
                            crate::commands::size_or_zero(h),
                        ),
                        pos: self.cursor.pos,
                    },
                    ..self
                },
                0,
            ),
            Command::SetCursorPos(x, y) => (
                UiModel {
                    cursor: Cursor {
                        pos: (
                            clamped(x, F32_COORD_MIN, F32_COORD_MAX),
                            clamped(y, F32_COORD_MIN, F32_COORD_MAX),
                        ),
                        ..self.cursor
                    },
                    ..self
                },
                0,
            ),
            Command::DebugInspect(id) => (
                UiModel {
                    inspector: Inspector {
                        id,
                        rect: None,
                        drawn: if id == 0 {
                            None
                        } else {
                            self.inspector.drawn
                        },
                        ..self.inspector
                    },
                    ..self
                },
                0,
            ),
            Command::DebugRectXy => (
                self,
                match self.inspector.rect {
                    Some(b) => packed_pair(b.x as int, b.y as int),
                    None => -1,
                },
            ),
            Command::DebugRectWh => (
                self,
                match self.inspector.rect {
                    Some(b) => packed_pair(b.w as int, b.h as int),
                    None => -1,
                },
            ),
            Command::DebugPause(on) => (
                UiModel { paused: on, step_pending: on && self.step_pending, ..self },
                0,
            ),
            Command::DebugStep => (
                UiModel { step_pending: self.paused || self.step_pending, ..self },
                0,
            ),
        }
    }

    /// The interface after a value was set on a node.
    pub open spec fn with_prop_set(self, id: i32, prop: u8, bits: u32) -> UiModel {
        self.at_node(
            id,
            |s: int|
                if self.rules.props.kind_of(prop) == KIND_NONE {
                    self.scene
                } else {
                    self.scene.with_prop(self.rules, s, prop, bits)
                },
        )
    }
}

impl Ui {
    /// Runs an operation and returns the answer; 0 where there is none.
    pub fn run(&mut self, c: Command) -> (answer: i32)
        requires
            old(self).wf(),
        ensures
            final(self).wf(),
            c !is DestroyNode ==> (final(self)@, answer as int) == old(self)@.ran(c),
            c matches Command::DestroyNode(id) ==> {
                &&& answer == 0
                &&& final(self)@ == old(self)@.with_scene(final(self)@.scene)
                &&& !old(self)@.scene.can_destroy(id as int) ==> final(self)@ == old(self)@
                &&& old(self)@.scene.can_destroy(id as int) ==> exists|list: Seq<u32>|
                    #[trigger] old(self)@.scene.destroyed(
                        old(self)@.scene.tree.resolves(id as int)->0,
                        list,
                        final(self)@.scene,
                    )
            },
    {
        match c {
            Command::CreateNode(kind) => {
                return self.create_node(kind);
            },
            Command::DestroyNode(id) => self.destroy_node(id),
            Command::InsertBefore(parent, child, anchor) => self.insert_before(
                parent,
                child,
                anchor,
            ),
            Command::RemoveChild(parent, child) => self.remove_child(parent, child),
            Command::SetStyle(id, style) => self.set_style(id, style),
            Command::SetProp(id, prop, bits) => self.set_prop(id, prop, bits),
            Command::FreeTexture(handle) => self.free_texture(handle),
            Command::SetImage(id, tex) => self.set_image(id, tex),
            Command::SetSprite(id, atlas, frames, cols, step) => self.set_sprite(
                id,
                atlas,
                frames,
                cols,
                step,
            ),
            Command::Animate(id, prop, to, dur, easing, delay) => {
                return self.animate(id, prop, to, dur, easing, delay);
            },
            Command::CancelAnim(anim) => self.cancel_anim(anim),
            Command::SetFocus(id) => self.set_focus(id),
            Command::SetActive(id, on) => self.set_active(id, on),
            Command::SetCursor(tex, hx, hy, w, h) => self.set_cursor(tex, hx, hy, w, h),
            Command::SetCursorPos(x, y) => self.set_cursor_pos(x, y),
            Command::DebugInspect(id) => self.debug_inspect(id),
            Command::DebugRectXy => {
                return self.debug_rect_xy();
            },
            Command::DebugRectWh => {
                return self.debug_rect_wh();
            },
            Command::DebugPause(on) => self.debug_pause(on),
            Command::DebugStep => self.debug_step(),
        }
        0
    }
}

// ---- many values at once -------------------------------------------------------------------------

/// Bytes of one record of a batch: three numbers of eight bytes.
pub const BATCH_RECORD_BYTES: usize = 24;

/// The little-endian 64-bit number at `off`.
pub open spec fn le64(b: Seq<u8>, off: int) -> int {
    crate::bytes::le32(b, off) + 0x1_0000_0000 * crate::bytes::le32(b, off + 4)
}

/// The bit patterns of record `i`: node, property and value.
pub open spec fn batch_record(b: Seq<u8>, i: int) -> (u64, u64, u64) {
    (
        le64(b, 24 * i) as u64,
        le64(b, 24 * i + 8) as u64,
        le64(b, 24 * i + 16) as u64,
    )
}

fn rd_u64(b: &[u8], off: usize) -> (r: u64)
    requires
        off + 8 <= b@.len(),
    ensures
        r == le64(b@, off as int),
{
    let total: usize = b.len();
    assert(off + 8 <= total);
    match (crate::bytes::rd_u32(b, off), crate::bytes::rd_u32(b, off + 4)) {
        (Some(lo), Some(hi)) => lo as u64 + 0x1_0000_0000 * (hi as u64),
        _ => 0,
    }
}

/// The records of a batch. Bytes after the last whole record are left out.
pub fn batch_records(b: &[u8]) -> (r: Vec<(u64, u64, u64)>)
    ensures
        r@.len() == b@.len() / 24,
        forall|i: int|
            #![trigger r@[i]]
            0 <= i < r@.len() ==> r@[i] == batch_record(b@, i),
{
    let total: usize = b.len();
    let n: usize = total / BATCH_RECORD_BYTES;
    let mut r: Vec<(u64, u64, u64)> = Vec::new();
    let mut i: usize = 0;
    while i < n
        invariant
            total == b@.len(),
            n == total / 24,
            i <= n,
            r@.len() == i,
            forall|j: int|
                #![trigger r@[j]]
                0 <= j < i ==> r@[j] == batch_record(b@, j),
        decreases n - i,
    {
        assert(24 * i + 24 <= total);
        let at: usize = i * BATCH_RECORD_BYTES;
        r.push((rd_u64(b, at), rd_u64(b, at + 8), rd_u64(b, at + 16)));
        i = i + 1;
    }
    r
}

/// A record of a batch, in the forms that are read.
#[derive(Clone, Copy)]
pub struct PropRecord {
    pub id: i32,
    pub prop: u8,
    pub value: Arg,
}

impl UiModel {
    /// The interface after the first `n` records were set, one after the other.
    pub open spec fn with_batch(self, records: Seq<PropRecord>, n: int) -> UiModel
        decreases n,
    {
        if n <= 0 {
            self
        } else {
            let r = records[n - 1];
            self.with_batch(records, n - 1).with_prop_set(
                r.id,
                r.prop,
                bits_for(self.rules.props.kind_of(r.prop), r.value),
            )
        }
    }
}

impl Ui {
    /// Sets many values.
    pub fn set_prop_batch(&mut self, records: &[PropRecord])
        requires
            old(self).wf(),
        ensures
            final(self).wf(),
            final(self)@ == old(self)@.with_batch(records@, records@.len() as int),
    {
        let ghost m = self@;
        let mut i: usize = 0;
        while i < records.len()
            invariant
                i <= records@.len(),
                self.wf(),
                self@.rules == m.rules,
                self@ == m.with_batch(records@, i as int),
            decreases records@.len() - i,
        {
            let r = records[i];
            let bits: u32 = prop_bits(self.scene.props.kinds[r.prop as usize], r.value);
            self.set_prop(r.id, r.prop, bits);
            i = i + 1;
        }
    }

    /// Stores the bytes that a script passed with size and format; -1 when an
    /// argument is missing, there are no bytes, or they make no texture.
    pub fn upload_call(&mut self, bytes: Option<&[u8]>, args: &[Arg]) -> (handle: i32)
        requires
            old(self).wf(),
        ensures
            final(self).wf(),
            (final(self)@, handle as int) == old(self)@.with_texture(
                match bytes {
                    Some(b) if args@.len() >= 4 => image_texture(
                        b@,
                        unsigned(args@[1].int),
                        unsigned(args@[2].int),
                        unsigned(args@[3].int),
                        0,
                    ),
                    _ => None,
                },
            ),
    {
        match bytes {
            Some(b) => {
                if args.len() < 4 {
                    return -1;
                }
                self.upload_texture(
                    b,
                    to_unsigned(args[1].int),
                    to_unsigned(args[2].int),
                    to_unsigned(args[3].int),
                )
            },
            None => -1,
        }
    }

    /// Stores an image entry that a script passed or that came from a file;
    /// -1 when there is none.
    pub fn img_entry_call(&mut self, blob: Option<&[u8]>) -> (handle: i32)
        requires
            old(self).wf(),
        ensures
            final(self).wf(),
            (final(self)@, handle as int) == old(self)@.with_texture(
                match blob {
                    Some(b) => img_entry_texture(b@),
                    None => None,
                },
            ),
    {
        match blob {
            Some(b) => self.upload_img_entry(b),
            None => -1,
        }
    }

    /// Stores a tile of a tileset entry of the package; -1 when the entry is
    /// not there or an argument is missing.
    pub fn load_tile_call(&mut self, blob: Option<&[u8]>, args: &[Arg]) -> (handle: i32)
        requires
            old(self).wf(),
        ensures
            final(self).wf(),
            (final(self)@, handle as int) == old(self)@.with_texture(
                match blob {
                    Some(b) if args@.len() >= 2 => tile_texture(
                        b@,
                        unsigned(args@[1].int) as int,
                    ),
                    _ => None,
                },
            ),
    {
        match blob {
            Some(b) => {
                if args.len() < 2 {
                    return -1;
                }
                self.upload_tileset_tile(b, to_unsigned(args[1].int))
            },
            None => -1,
        }
    }
}

/// Setting values in one batch comes to the same as setting them one by one.
pub proof fn law_batch_is_one_by_one(m: UiModel, a: Seq<PropRecord>, b: Seq<PropRecord>)
    ensures
        m.with_batch(a + b, (a + b).len() as int) == m.with_batch(a, a.len() as int).with_batch(
            b,
            b.len() as int,
        ),
    decreases b.len(),
{
    lemma_batch_prefix(m, a, b, a.len() as int);
    lemma_batch_rest(m, a, b, b.len() as int);
}

proof fn lemma_batch_prefix(m: UiModel, a: Seq<PropRecord>, b: Seq<PropRecord>, n: int)
    requires
        0 <= n <= a.len(),
    ensures
        m.with_batch(a + b, n) == m.with_batch(a, n),
    decreases n,
{
    if n > 0 {
        lemma_batch_prefix(m, a, b, n - 1);
        assert((a + b)[n - 1] == a[n - 1]);
    }
}

proof fn lemma_batch_keeps_rules(m: UiModel, a: Seq<PropRecord>, n: int)
    requires
        0 <= n <= a.len(),
    ensures
        m.with_batch(a, n).rules == m.rules,
    decreases n,
{
    if n > 0 {
        lemma_batch_keeps_rules(m, a, n - 1);
    }
}

proof fn lemma_batch_rest(m: UiModel, a: Seq<PropRecord>, b: Seq<PropRecord>, n: int)
    requires
        0 <= n <= b.len(),
    ensures
        m.with_batch(a + b, a.len() + n) == m.with_batch(a, a.len() as int).with_batch(b, n),
    decreases n,
{
    lemma_batch_keeps_rules(m, a, a.len() as int);
    if n > 0 {
        lemma_batch_rest(m, a, b, n - 1);
        assert((a + b)[a.len() + n - 1] == b[n - 1]);
    } else {
        lemma_batch_prefix(m, a, b, a.len() as int);
    }
}

/// A record of a batch is three numbers of eight bytes, lowest first: the node,
/// the property and the value.
pub proof fn law_batch_bytes(b: Seq<u8>, i: int)
    requires
        0 <= i,
        24 * i + 24 <= b.len(),
    ensures
        ({
            let word = |at: int|
                b[at] + 0x100 * b[at + 1] + 0x1_0000 * b[at + 2] + 0x100_0000 * b[at + 3]
                    + 0x1_0000_0000 * (b[at + 4] + 0x100 * b[at + 5] + 0x1_0000 * b[at + 6]
                    + 0x100_0000 * b[at + 7]);
            let (node, prop, value) = batch_record(b, i);
            node == word(24 * i) && prop == word(24 * i + 8) && value == word(24 * i + 16)
        }),
{
}

/// Setting one value of a batch is a call of `setProp` with its numbers.
pub proof fn law_batch_is_set_prop(m: UiModel, r: PropRecord, id: Arg, prop: Arg)
    requires
        id.int == r.id,
        prop.int == r.prop,
    ensures
        command_of(Op::SetProp, seq![id, prop, r.value], m.rules.props) matches Some(c)
            && m.with_batch(seq![r], 1) == m.ran(c).0,
{
    let args = seq![id, prop, r.value];
    assert(args[0] == id && args[1] == prop && args[2] == r.value);
    assert(m.with_batch(seq![r], 0) == m);
}

} // verus!
