//! The frame loop of a host that runs one app at a time.
//!
//! `GuestLoop` decides what happens next; whoever drives it performs the
//! action and reports what came of it. An app is booted, then runs frame by
//! frame until another one is asked for. The picture of frame N is shown while
//! frame N + 1 is computed.
use crate::capture::{capture_input_mask, scripted_mask};
use crate::constants::{
    ANALOG_CENTER, BTN_SELECT, CORE_TICKS_PER_SECOND, GC_BUMP_STEP, MULTI_APP_SIM_HZ,
};
use crate::switch::Switch;
use vstd::prelude::*;

verus! {

/// Frames per second and animation steps per frame: a package of several apps
/// runs at a lower frame rate and makes up for it in steps.
pub fn host_policy(multi: bool) -> (r: (u32, u32))
    ensures
        r.0 == (if multi {
            MULTI_APP_SIM_HZ
        } else {
            CORE_TICKS_PER_SECOND
        }),
        r.0 * r.1 == CORE_TICKS_PER_SECOND,
{
    if multi {
        (MULTI_APP_SIM_HZ, CORE_TICKS_PER_SECOND / MULTI_APP_SIM_HZ)
    } else {
        (CORE_TICKS_PER_SECOND, 1)
    }
}

/// Whether a frame may be shown: enough vertical blanks have passed since the
/// last one was, and the display is in one.
pub fn present_due(vcount: u32, last_vcount: u32, vblanks_per_frame: u32, in_vblank: bool) -> (r:
    bool)
    ensures
        r <==> in_vblank && (vcount - last_vcount) % 0x1_0000_0000 >= vblanks_per_frame,
{
    vcount.wrapping_sub(last_vcount) >= vblanks_per_frame && in_vblank
}

/// Where the loop is: what it waits for.
#[derive(Clone, Copy, PartialEq, Eq, Debug)]
pub enum Phase {
    /// The script and assets of the app to be read.
    Load,
    /// The UI core to be set up.
    Core,
    /// A script runtime.
    Runtime,
    /// A script context.
    Context,
    /// The bundle to run.
    Eval,
    /// The frame function to be found.
    Lookup,
    /// The controller.
    Pad,
    /// The frame function to return.
    Call,
    /// The queued jobs to run.
    Jobs,
    /// A collection to run.
    Collect,
    /// The animation steps to run.
    Tick,
    /// The draw list to be built.
    Draw,
    /// The last frame to be shown.
    Present,
    /// The shown frame to be dumped.
    Dump,
    /// The draw list to be handed to the graphics engine.
    Render,
    /// The app to be torn down.
    Teardown,
    /// Nothing: the loop is over.
    Over,
}

/// What came of the last action.
#[derive(Clone, Copy, PartialEq, Eq, Debug)]
pub enum Event {
    /// It is done, with or without success.
    Done(bool),
    /// The controller: buttons and both axes of the stick.
    Pad(u32, u8, u8),
    /// It is done, and this much of the heap was ever in use.
    Heap(usize),
}

/// What to do next.
#[derive(Clone, Copy, PartialEq, Eq, Debug)]
pub enum Action {
    /// Read the script and assets of the app.
    ReadBytes,
    /// Set up a fresh UI core: drop font textures, feed the assets, upload the
    /// picture of the app that was left.
    StartCore,
    NewRuntime,
    NewContext,
    /// Install the bindings, the frame rate and the assets, and run the bundle.
    Evaluate,
    FindFrame,
    PeekPad,
    /// Call the frame function with buttons and the stick, both axes in eight
    /// bits each.
    CallFrame(u32, u32),
    DrainJobs,
    Collect,
    /// Run this many animation steps.
    Tick(u32),
    Draw,
    /// Wait for the graphics engine and for the display, and show its frame.
    Present,
    /// Dump the shown frame under this number.
    Dump(u32),
    /// Rewind the vertex pool, draw, and set the graphics engine going.
    Render,
    /// Take a picture of the shown frame and tear the app down.
    Teardown,
    /// Boot this app next.
    ReturnTo(usize),
    /// Stop with an error screen.
    Halt,
}

/// The frame loop.
pub struct GuestLoop {
    /// There are several apps.
    pub multi: bool,
    /// Animation steps per frame.
    pub ticks: u32,
    /// Input script; the controller is not listened to while there is one.
    pub script: Option<Vec<u8>>,
    /// Frames of all apps so far.
    pub global_frame: u32,
    /// Heap use after the last forced collection.
    pub last_gc: usize,
    /// The app that runs; 0 is the launcher.
    pub app: usize,
    /// Frames of this app so far.
    pub guest_frame: u32,
    /// The summon button was down in the last frame.
    pub prev_select: bool,
    /// The app asked for, once the running one is left.
    pub next_app: usize,
    pub phase: Phase,
}

/// Bit `bit` (a power of two) of a mask is set.
pub open spec fn pressed(mask: u32, bit: u32) -> bool {
    (mask as int / bit as int) % 2 == 1
}

impl GuestLoop {
    /// `ev` can come of the action that the loop waits for.
    pub open spec fn awaits(self, ev: Event) -> bool {
        match self.phase {
            Phase::Pad => ev is Pad,
            Phase::Jobs | Phase::Collect => ev is Heap,
            Phase::Over => false,
            _ => ev is Done,
        }
    }

    /// An app that cannot be booted: the launcher comes back, unless it is the
    /// launcher or the only app, which stops the host.
    pub open spec fn failed(self) -> (GuestLoop, Action) {
        (
            GuestLoop { phase: Phase::Over, ..self },
            if self.multi && self.app != 0 {
                Action::ReturnTo(0)
            } else {
                Action::Halt
            },
        )
    }

    pub open spec fn at(self, phase: Phase, action: Action) -> (GuestLoop, Action) {
        (GuestLoop { phase, ..self }, action)
    }

    /// The buttons of this frame: from the script where there is one.
    pub open spec fn buttons(self, pad: u32) -> u32 {
        match self.script {
            Some(s) => scripted_mask(s@, self.global_frame as int, pad as int) as u32,
            None => pad,
        }
    }

    /// The stick of this frame, both axes packed; at rest while a script runs.
    pub open spec fn stick(self, lx: u8, ly: u8) -> u32 {
        if self.script is Some {
            ANALOG_CENTER
        } else {
            (0x100 * (lx as int) + ly as int) as u32
        }
    }

    /// The host keeps the summon button from the app that runs.
    pub open spec fn takes_select(self) -> bool {
        self.multi && self.app != 0
    }

    /// The summon button went down in this frame.
    pub open spec fn summons(self, pad: u32) -> bool {
        self.takes_select() && pressed(self.buttons(pad), BTN_SELECT) && !self.prev_select
    }

    /// The buttons that the app gets to see.
    pub open spec fn visible(self, pad: u32) -> u32 {
        if self.takes_select() && pressed(self.buttons(pad), BTN_SELECT) {
            (self.buttons(pad) - BTN_SELECT) as u32
        } else {
            self.buttons(pad)
        }
    }

    /// The last frame is shown now: always but in the first frame of an app
    /// that took over from another one.
    pub open spec fn presents(self) -> bool {
        self.global_frame == 0 || self.guest_frame > 0
    }

    /// The bottom of a frame: leave the app if another one was asked for, else
    /// draw.
    pub open spec fn bottom(self, sw: Switch) -> (GuestLoop, Action) {
        match sw.pending {
            Some(next) => (
                GuestLoop { phase: Phase::Teardown, next_app: next, ..self },
                Action::Teardown,
            ),
            None => self.at(Phase::Render, Action::Render),
        }
    }

    /// The step that the loop takes on an event.
    pub open spec fn stepped(self, sw: Switch, ev: Event) -> (GuestLoop, Action) {
        match (self.phase, ev) {
            (Phase::Load, Event::Done(ok)) => if ok {
                self.at(Phase::Core, Action::StartCore)
            } else {
                self.failed()
            },
            (Phase::Core, Event::Done(_)) => self.at(Phase::Runtime, Action::NewRuntime),
            (Phase::Runtime, Event::Done(ok)) => if ok {
                self.at(Phase::Context, Action::NewContext)
            } else {
                self.at(Phase::Over, Action::Halt)
            },
            (Phase::Context, Event::Done(ok)) => if ok {
                self.at(Phase::Eval, Action::Evaluate)
            } else {
                self.at(Phase::Over, Action::Halt)
            },
            (Phase::Eval, Event::Done(ok)) => if ok {
                self.at(Phase::Lookup, Action::FindFrame)
            } else {
                self.failed()
            },
            (Phase::Lookup, Event::Done(ok)) => if ok {
                self.at(Phase::Pad, Action::PeekPad)
            } else {
                self.failed()
            },
            (Phase::Pad, Event::Pad(pad, lx, ly)) => (
                GuestLoop {
                    phase: Phase::Call,
                    prev_select: if self.takes_select() {
                        pressed(self.buttons(pad), BTN_SELECT)
                    } else {
                        self.prev_select
                    },
                    ..self
                },
                Action::CallFrame(self.visible(pad), self.stick(lx, ly)),
            ),
            (Phase::Call, Event::Done(_)) => self.at(Phase::Jobs, Action::DrainJobs),
            (Phase::Jobs, Event::Heap(bump)) => if bump > self.last_gc + GC_BUMP_STEP {
                self.at(Phase::Collect, Action::Collect)
            } else {
                self.at(Phase::Tick, Action::Tick(self.ticks))
            },
            (Phase::Collect, Event::Heap(bump)) => (
                GuestLoop { phase: Phase::Tick, last_gc: bump, ..self },
                Action::Tick(self.ticks),
            ),
            (Phase::Tick, Event::Done(_)) => self.at(Phase::Draw, Action::Draw),
            (Phase::Draw, Event::Done(_)) => if self.presents() {
                self.at(Phase::Present, Action::Present)
            } else {
                self.bottom(sw)
            },
            (Phase::Present, Event::Done(_)) => if self.script is Some && self.global_frame > 0 {
                self.at(Phase::Dump, Action::Dump((self.global_frame - 1) as u32))
            } else {
                self.bottom(sw)
            },
            (Phase::Dump, Event::Done(_)) => self.bottom(sw),
            (Phase::Render, Event::Done(_)) => (
                GuestLoop {
                    phase: Phase::Pad,
                    guest_frame: self.guest_frame.wrapping_add(1),
                    global_frame: self.global_frame.wrapping_add(1),
                    ..self
                },
                Action::PeekPad,
            ),
            (Phase::Teardown, Event::Done(_)) => (
                GuestLoop {
                    phase: Phase::Over,
                    global_frame: self.global_frame.wrapping_add(1),
                    ..self
                },
                Action::ReturnTo(self.next_app),
            ),
            _ => (self, Action::Halt),
        }
    }

    /// What a step does to the state of switching: the summon button asks for
    /// the launcher, and the bottom of a frame takes the request.
    pub open spec fn switched(self, sw: Switch, ev: Event) -> Switch {
        match (self.phase, ev) {
            (Phase::Pad, Event::Pad(pad, _, _)) => if self.summons(pad) {
                Switch { pending: Some(0), pending_summon: true, ..sw }
            } else {
                sw
            },
            _ => if self.stepped(sw, ev).1 == Action::Teardown {
                sw.taken()
            } else {
                sw
            },
        }
    }

    /// A loop that has not booted an app yet.
    pub fn new(multi: bool, ticks: u32, script: Option<Vec<u8>>) -> (g: GuestLoop)
        ensures
            g.multi == multi,
            g.ticks == ticks,
            g.script == script,
            g.global_frame == 0,
            g.last_gc == 0,
            g.phase == Phase::Over,
    {
        GuestLoop {
            multi,
            ticks,
            script,
            global_frame: 0,
            last_gc: 0,
            app: 0,
            guest_frame: 0,
            prev_select: true,
            next_app: 0,
            phase: Phase::Over,
        }
    }

    /// Boots app `app`. The summon button counts as held until it is seen up.
    pub fn boot(&mut self, sw: &mut Switch, app: usize) -> (a: Action)
        ensures
            a == Action::ReadBytes,
            *final(self) == (GuestLoop {
                app,
                guest_frame: 0,
                prev_select: true,
                phase: Phase::Load,
                ..*old(self)
            }),
            *final(sw) == (Switch { current: app, ..*old(sw) }),
    {
        sw.set_current(app);
        self.app = app;
        self.guest_frame = 0;
        self.prev_select = true;
        self.phase = Phase::Load;
        Action::ReadBytes
    }

    fn guest_fail(&mut self) -> (a: Action)
        ensures
            (*final(self), a) == old(self).failed(),
    {
        self.phase = Phase::Over;
        if self.multi && self.app != 0 {
            Action::ReturnTo(0)
        } else {
            Action::Halt
        }
    }

    fn go(&mut self, phase: Phase, action: Action) -> (a: Action)
        ensures
            (*final(self), a) == old(self).at(phase, action),
    {
        self.phase = phase;
        action
    }

    fn frame_input(&mut self, sw: &mut Switch, pad: u32, lx: u8, ly: u8) -> (a: Action)
        requires
            old(self).phase == Phase::Pad,
        ensures
            (*final(self), a) == old(self).stepped(*old(sw), Event::Pad(pad, lx, ly)),
            *final(sw) == old(self).switched(*old(sw), Event::Pad(pad, lx, ly)),
    {
        let mut mask: u32 = match &self.script {
            Some(s) => capture_input_mask(s.as_slice(), self.global_frame, pad),
            None => pad,
        };
        let stick: u32 = if self.script.is_some() {
            ANALOG_CENTER
        } else {
            0x100 * (lx as u32) + ly as u32
        };
        if self.multi && self.app != 0 {
            let select_now: bool = (mask / BTN_SELECT) % 2 == 1;
            if select_now && !self.prev_select {
                sw.request_summon();
            }
            self.prev_select = select_now;
            if select_now {
                mask = mask - BTN_SELECT;
            }
        }
        self.phase = Phase::Call;
        Action::CallFrame(mask, stick)
    }

    fn frame_bottom(&mut self, sw: &mut Switch) -> (a: Action)
        ensures
            (*final(self), a) == old(self).bottom(*old(sw)),
            *final(sw) == (if a == Action::Teardown {
                old(sw).taken()
            } else {
                *old(sw)
            }),
    {
        match sw.take_pending() {
            Some((next, _summon)) => {
                self.phase = Phase::Teardown;
                self.next_app = next;
                Action::Teardown
            },
            None => self.go(Phase::Render, Action::Render),
        }
    }

    /// Takes one step: from what came of the last action to the next action.
    pub fn step(&mut self, sw: &mut Switch, ev: Event) -> (a: Action)
        requires
            old(self).awaits(ev),
        ensures
            (*final(self), a) == old(self).stepped(*old(sw), ev),
            *final(sw) == old(self).switched(*old(sw), ev),
    {
        match (self.phase, ev) {
            (Phase::Load, Event::Done(ok)) => if ok {
                self.go(Phase::Core, Action::StartCore)
            } else {
                self.guest_fail()
            },
            (Phase::Core, Event::Done(_)) => self.go(Phase::Runtime, Action::NewRuntime),
            (Phase::Runtime, Event::Done(ok)) => if ok {
                self.go(Phase::Context, Action::NewContext)
            } else {
                self.go(Phase::Over, Action::Halt)
            },
            (Phase::Context, Event::Done(ok)) => if ok {
                self.go(Phase::Eval, Action::Evaluate)
            } else {
                self.go(Phase::Over, Action::Halt)
            },
            (Phase::Eval, Event::Done(ok)) => if ok {
                self.go(Phase::Lookup, Action::FindFrame)
            } else {
                self.guest_fail()
            },
            (Phase::Lookup, Event::Done(ok)) => if ok {
                self.go(Phase::Pad, Action::PeekPad)
            } else {
                self.guest_fail()
            },
            (Phase::Pad, Event::Pad(pad, lx, ly)) => self.frame_input(sw, pad, lx, ly),
            (Phase::Call, Event::Done(_)) => self.go(Phase::Jobs, Action::DrainJobs),
            (Phase::Jobs, Event::Heap(bump)) => if bump > self.last_gc.saturating_add(
                GC_BUMP_STEP,
            ) {
                self.go(Phase::Collect, Action::Collect)
            } else {
                let n: u32 = self.ticks;
                self.go(Phase::Tick, Action::Tick(n))
            },
            (Phase::Collect, Event::Heap(bump)) => {
                self.last_gc = bump;
                let n: u32 = self.ticks;
                self.go(Phase::Tick, Action::Tick(n))
            },
            (Phase::Tick, Event::Done(_)) => self.go(Phase::Draw, Action::Draw),
            (Phase::Draw, Event::Done(_)) => if self.global_frame == 0 || self.guest_frame > 0 {
                self.go(Phase::Present, Action::Present)
            } else {
                self.frame_bottom(sw)
            },
            (Phase::Present, Event::Done(_)) => if self.script.is_some() && self.global_frame > 0 {
                let shown: u32 = self.global_frame - 1;
                self.go(Phase::Dump, Action::Dump(shown))
            } else {
                self.frame_bottom(sw)
            },
            (Phase::Dump, Event::Done(_)) => self.frame_bottom(sw),
            (Phase::Render, Event::Done(_)) => {
                self.guest_frame = self.guest_frame.wrapping_add(1);
                self.global_frame = self.global_frame.wrapping_add(1);
                self.go(Phase::Pad, Action::PeekPad)
            },
            (Phase::Teardown, Event::Done(_)) => {
                self.global_frame = self.global_frame.wrapping_add(1);
                let next: usize = self.next_app;
                self.go(Phase::Over, Action::ReturnTo(next))
            },
            _ => Action::Halt,
        }
    }
}

// ---- laws -------------------------------------------------------------------------

/// Apps other than the launcher never see the summon button.
pub proof fn law_guests_never_see_select(g: GuestLoop, sw: Switch, pad: u32, lx: u8, ly: u8)
    requires
        g.phase == Phase::Pad,
        g.multi,
        g.app != 0,
    ensures
        g.stepped(sw, Event::Pad(pad, lx, ly)).1 matches Action::CallFrame(mask, _stick)
            && !pressed(mask, BTN_SELECT),
{
}

/// The launcher, and the only app of a package, see every button.
pub proof fn law_launcher_sees_all_buttons(g: GuestLoop, sw: Switch, pad: u32, lx: u8, ly: u8)
    requires
        g.phase == Phase::Pad,
        !g.multi || g.app == 0,
    ensures
        g.stepped(sw, Event::Pad(pad, lx, ly)).1 == Action::CallFrame(
            g.buttons(pad),
            g.stick(lx, ly),
        ),
        g.switched(sw, Event::Pad(pad, lx, ly)) == sw,
{
}

/// A summon takes the button to go down: while it is held from one frame to
/// the next, and while it is still held from before the app was booted,
/// nothing is asked for.
pub proof fn law_held_select_does_not_summon(g: GuestLoop, sw: Switch, pad: u32, lx: u8, ly: u8)
    requires
        g.phase == Phase::Pad,
        g.prev_select,
    ensures
        g.switched(sw, Event::Pad(pad, lx, ly)) == sw,
        g.takes_select() && pressed(g.buttons(pad), BTN_SELECT) ==> g.stepped(
            sw,
            Event::Pad(pad, lx, ly),
        ).0.prev_select,
{
}

/// The frame that a new app computes first does not show anything: the last
/// frame of the app that was left stays on the display. At power on it shows
/// what is there.
pub proof fn law_first_frame_holds_the_picture(g: GuestLoop, sw: Switch)
    requires
        g.phase == Phase::Draw,
        g.guest_frame == 0,
    ensures
        g.stepped(sw, Event::Done(true)).1 == Action::Present <==> g.global_frame == 0,
{
}

/// A request made while a frame runs leaves the app at the bottom of that
/// frame, and the app asked for is booted next.
pub proof fn law_request_leaves_at_the_bottom(g: GuestLoop, sw: Switch)
    requires
        g.phase == Phase::Dump,
        sw.pending is Some,
    ensures
        ({
            let (torn, a) = g.stepped(sw, Event::Done(true));
            let (over, b) = torn.stepped(g.switched(sw, Event::Done(true)), Event::Done(true));
            &&& a == Action::Teardown
            &&& b == Action::ReturnTo(sw.pending->0)
            &&& over.phase == Phase::Over
            &&& over.global_frame == g.global_frame.wrapping_add(1)
        }),
{
}

/// A frame of a running app with nothing asked for, no collection and no
/// script: the pad, the frame function, the jobs, the fixed number of steps,
/// the draw list, the last frame shown, and the new one drawn; then the next
/// frame begins.
pub proof fn law_frame_order(g: GuestLoop, sw: Switch, pad: u32, lx: u8, ly: u8, bump: usize)
    requires
        g.phase == Phase::Pad,
        g.guest_frame > 0,
        g.script is None,
        !g.takes_select(),
        sw.pending is None,
        bump <= g.last_gc + GC_BUMP_STEP,
    ensures
        ({
            let (g1, a1) = g.stepped(sw, Event::Pad(pad, lx, ly));
            let (g2, a2) = g1.stepped(sw, Event::Done(true));
            let (g3, a3) = g2.stepped(sw, Event::Heap(bump));
            let (g4, a4) = g3.stepped(sw, Event::Done(true));
            let (g5, a5) = g4.stepped(sw, Event::Done(true));
            let (g6, a6) = g5.stepped(sw, Event::Done(true));
            let (g7, a7) = g6.stepped(sw, Event::Done(true));
            &&& a1 is CallFrame
            &&& a2 == Action::DrainJobs
            &&& a3 == Action::Tick(g.ticks)
            &&& a4 == Action::Draw
            &&& a5 == Action::Present
            &&& a6 == Action::Render
            &&& a7 == Action::PeekPad
            &&& g7 == (GuestLoop {
                guest_frame: g.guest_frame.wrapping_add(1),
                global_frame: g.global_frame.wrapping_add(1),
                ..g
            })
        }),
{
}

/// The frame dumped after a present is the one before the frame being
/// computed: the display is one frame behind.
pub proof fn law_dump_is_one_behind(g: GuestLoop, sw: Switch)
    requires
        g.phase == Phase::Present,
        g.script is Some,
    ensures
        g.global_frame > 0 ==> g.stepped(sw, Event::Done(true)).1 == Action::Dump(
            (g.global_frame - 1) as u32,
        ),
        g.global_frame == 0 ==> !(g.stepped(sw, Event::Done(true)).1 is Dump),
{
}

} // verus!
