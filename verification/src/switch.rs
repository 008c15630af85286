//! Switching between the apps of one package: the app table, the pending
//! request, and the picture kept of the app that was left.
//!
//! One app runs at a time. A request made while a frame runs is taken at the
//! bottom of that frame.
use crate::constants::{IMG_FLAG_LINEAR, PSM_8888};
use crate::json::{json_str, push_json_str};
use crate::shot::{downscale, shot_of, FB_BYTES, SHOT_H, SHOT_W};
use crate::texture::{image_texture, TexModel};
use crate::ui::Ui;
use vstd::prelude::*;
use vstd::string::StringExecFns;

verus! {

/// One app of the package.
pub struct EmbeddedApp {
    pub output: String,
    pub id: String,
    pub title: String,
    /// Script with its terminator, and assets; unused where `pocket` is not
    /// empty.
    pub js: Vec<u8>,
    pub pak: Vec<u8>,
    /// A self-contained package, or nothing.
    pub pocket: Vec<u8>,
}

/// What the reader of a self-contained package found for this target.
pub struct Sections<'a> {
    pub js: Option<&'a [u8]>,
    pub pak: Option<&'a [u8]>,
}

/// The bytes an app boots from.
pub struct GuestBytes<'a> {
    pub js: &'a [u8],
    pub pak: &'a [u8],
}

/// The bytes that app `index` boots from: those of the table entry, or where
/// it carries a package those of its sections. `unpacked` is what the reader
/// made of that package, `None` for a malformed one or one without this
/// target. `None` too for a package without a script; one without assets has
/// none.
pub fn guest_bytes<'a>(
    apps: &'a [EmbeddedApp],
    index: usize,
    unpacked: Option<Sections<'a>>,
) -> (r: Option<GuestBytes<'a>>)
    requires
        index < apps@.len(),
    ensures
        apps@[index as int].pocket@.len() == 0 ==> r is Some && r->0.js@
            == apps@[index as int].js@ && r->0.pak@ == apps@[index as int].pak@,
        apps@[index as int].pocket@.len() > 0 ==> {
            &&& r is Some <==> unpacked is Some && unpacked->0.js is Some
            &&& r is Some ==> r->0.js@ == unpacked->0.js->0@ && r->0.pak@ == (
            match unpacked->0.pak {
                Some(p) => p@,
                None => Seq::empty(),
            })
        },
{
    let app = &apps[index];
    if app.pocket.len() == 0 {
        return Some(GuestBytes { js: app.js.as_slice(), pak: app.pak.as_slice() });
    }
    match unpacked {
        Some(found) => match found.js {
            Some(js) => {
                let pak: &'a [u8] = match found.pak {
                    Some(p) => p,
                    None => vstd::slice::slice_subrange(js, 0, 0),
                };
                proof {
                    if found.pak is None {
                        assert(pak@ =~= Seq::<u8>::empty());
                    }
                }
                Some(GuestBytes { js, pak })
            },
            None => None,
        },
        None => None,
    }
}

/// Whether there is more than one app, so that switching is possible.
pub fn multi(apps: &[EmbeddedApp]) -> (r: bool)
    ensures
        r <==> apps@.len() > 1,
{
    apps.len() > 1
}

/// The first app with this output name.
pub fn find(apps: &[EmbeddedApp], output: &str) -> (r: Option<usize>)
    ensures
        r is None <==> forall|i: int|
            0 <= i < apps@.len() ==> #[trigger] apps@[i].output@ != output@,
        r matches Some(at) ==> {
            &&& at < apps@.len()
            &&& apps@[at as int].output@ == output@
            &&& forall|i: int| 0 <= i < at ==> #[trigger] apps@[i].output@ != output@
        },
{
    let key: String = output.to_owned();
    let mut i: usize = 0;
    while i < apps.len()
        invariant
            i <= apps@.len(),
            key@ == output@,
            forall|j: int| 0 <= j < i ==> #[trigger] apps@[j].output@ != output@,
        decreases apps@.len() - i,
    {
        if apps[i].output == key {
            return Some(i);
        }
        i = i + 1;
    }
    None
}

// ---- requests ---------------------------------------------------------------------

/// The state of app switching.
pub struct Switch {
    /// The app that runs.
    pub current: usize,
    /// The app asked for, taken at the bottom of the frame.
    pub pending: Option<usize>,
    /// The request came from the summon chord.
    pub pending_summon: bool,
    /// The app that a summon left, for the launcher to go back to.
    pub resume: Option<usize>,
    /// Picture of the app that was left, when there is one.
    pub shot: Option<Vec<u8>>,
    /// The picture goes to the incoming app.
    pub guest_shot: bool,
    /// Texture handle of the picture in the running app; -1 for none.
    pub shot_handle: i32,
}

impl Switch {
    /// The state at power on: app 0 runs and nothing is asked for.
    pub fn new() -> (s: Switch)
        ensures
            s == (Switch {
                current: 0,
                pending: None,
                pending_summon: false,
                resume: None,
                shot: None,
                guest_shot: false,
                shot_handle: (-1) as i32,
            }),
    {
        Switch {
            current: 0,
            pending: None,
            pending_summon: false,
            resume: None,
            shot: None,
            guest_shot: false,
            shot_handle: -1,
        }
    }

    pub fn current(&self) -> (r: usize)
        ensures
            r == self.current,
    {
        self.current
    }

    pub fn set_current(&mut self, index: usize)
        ensures
            *final(self) == (Switch { current: index, ..*old(self) }),
    {
        self.current = index;
    }

    /// Output name of the running app.
    pub fn current_output<'a>(&self, apps: &'a [EmbeddedApp]) -> (r: &'a str)
        requires
            self.current < apps@.len(),
        ensures
            r@ == apps@[self.current as int].output@,
    {
        apps[self.current].output.as_str()
    }

    /// The app that the last summon left.
    pub fn resume(&self) -> (r: Option<usize>)
        ensures
            r == self.resume,
    {
        self.resume
    }

    /// Asks for app `index` at the bottom of the frame.
    pub fn request_launch(&mut self, index: usize)
        ensures
            *final(self) == (Switch {
                pending: Some(index),
                pending_summon: false,
                ..*old(self)
            }),
    {
        self.pending = Some(index);
        self.pending_summon = false;
    }

    /// Asks for the launcher at the bottom of the frame, to come back from.
    pub fn request_summon(&mut self)
        ensures
            *final(self) == (Switch { pending: Some(0), pending_summon: true, ..*old(self) }),
    {
        self.pending = Some(0);
        self.pending_summon = true;
    }

    /// The state after a pending request was taken.
    pub open spec fn taken(self) -> Switch {
        if self.pending is None {
            self
        } else {
            Switch {
                pending: None,
                pending_summon: false,
                resume: if self.pending_summon {
                    Some(self.current)
                } else {
                    None
                },
                guest_shot: self.pending_summon,
                shot_handle: (-1) as i32,
                ..self
            }
        }
    }

    /// Takes the pending request: the app asked for, and whether it is a
    /// summon. A summon leaves the running app to come back to; a launch
    /// forgets it.
    pub fn take_pending(&mut self) -> (r: Option<(usize, bool)>)
        ensures
            *final(self) == old(self).taken(),
            r is Some <==> old(self).pending is Some,
            r is Some ==> r->0 == (old(self).pending->0, old(self).pending_summon),
    {
        match self.pending {
            None => None,
            Some(target) => {
                let summon: bool = self.pending_summon;
                self.pending = None;
                self.pending_summon = false;
                if summon {
                    self.resume = Some(self.current);
                    self.guest_shot = true;
                } else {
                    self.resume = None;
                    self.guest_shot = false;
                }
                self.shot_handle = -1;
                Some((target, summon))
            },
        }
    }
}

// ---- the picture of the app that was left ------------------------------------------------

/// The texture of a picture: it is stretched over the screen, and so sampled
/// smoothly.
pub open spec fn shot_texture(shot: Seq<u8>) -> Option<TexModel> {
    image_texture(shot, SHOT_W, SHOT_H, PSM_8888, IMG_FLAG_LINEAR)
}

impl Switch {
    /// All but the picture is the same.
    pub open spec fn same_but_shot(self, o: Switch) -> bool {
        self == (Switch { shot: self.shot, ..o })
    }

    /// Keeps a picture of what the display shows; none when its pixels are in
    /// another format.
    pub fn capture_shot(&mut self, display: Option<&[u8]>)
        requires
            display matches Some(d) ==> d@.len() == FB_BYTES,
        ensures
            final(self).same_but_shot(*old(self)),
            final(self).shot is Some <==> display is Some,
            final(self).shot matches Some(p) ==> p@ == shot_of(display->0@),
    {
        self.shot = match display {
            Some(d) => Some(downscale(d)),
            None => None,
        };
    }

    /// The picture of what the app that was left last showed.
    pub fn shot_pixels(&self) -> (r: Option<&[u8]>)
        ensures
            r is Some <==> self.shot is Some,
            r matches Some(p) ==> p@ == self.shot->0@,
    {
        match &self.shot {
            Some(p) => Some(p.as_slice()),
            None => None,
        }
    }

    /// Stores the picture in the interface of an app that was summoned, as
    /// often as one boots.
    pub fn upload_shot(&mut self, ui: &mut Ui)
        requires
            old(ui).wf(),
        ensures
            final(ui).wf(),
            old(self).shot is Some && old(self).guest_shot ==> ({
                let (m, handle) = old(ui)@.with_texture(shot_texture(old(self).shot->0@));
                &&& final(ui)@ == m
                &&& *final(self) == (Switch { shot_handle: handle as i32, ..*old(self) })
            }),
            old(self).shot is None || !old(self).guest_shot ==> final(ui)@ == old(ui)@
                && *final(self) == *old(self),
    {
        if !self.guest_shot {
            return;
        }
        let handle: i32 = match &self.shot {
            Some(p) => ui.upload_texture_flags(
                p.as_slice(),
                SHOT_W,
                SHOT_H,
                PSM_8888,
                IMG_FLAG_LINEAR,
            ),
            None => return,
        };
        self.shot_handle = handle;
    }

    /// The texture of the picture in the running app; -1 for none.
    pub fn shot_handle(&self) -> (h: i32)
        ensures
            h == self.shot_handle,
    {
        self.shot_handle
    }

    /// A script asks for an app by its output name. Returns whether there is
    /// such an app.
    pub fn launch(&mut self, apps: &[EmbeddedApp], output: &str) -> (ok: bool)
        ensures
            ok <==> exists|i: int|
                0 <= i < apps@.len() && (#[trigger] apps@[i]).output@ == output@,
            !ok ==> *final(self) == *old(self),
            ok ==> exists|i: usize|
                {
                    &&& i < apps@.len()
                    &&& (#[trigger] apps@[i as int]).output@ == output@
                    &&& forall|j: int| 0 <= j < i ==> (#[trigger] apps@[j]).output@ != output@
                    &&& *final(self) == (Switch {
                        pending: Some(i),
                        pending_summon: false,
                        ..*old(self)
                    })
                },
    {
        match find(apps, output) {
            Some(i) => {
                self.request_launch(i);
                proof {
                    assert(apps@[i as int].output@ == output@);
                }
                true
            },
            None => false,
        }
    }
}

/// Every picture makes a texture.
pub proof fn law_picture_is_a_texture(frame: Seq<u8>)
    ensures
        shot_texture(shot_of(frame)) is Some,
{
}

/// Only an app that was summoned gets the picture: after a launch nothing is
/// stored, and after any switch the handle of the app before is gone.
pub proof fn law_picture_goes_to_the_summoned(s: Switch)
    requires
        s.pending is Some,
    ensures
        s.taken().guest_shot == s.pending_summon,
        s.taken().shot_handle == -1,
        s.taken().shot == s.shot,
{
}

/// A request is taken once: right after it was taken there is none.
pub proof fn law_request_is_taken_once(s: Switch)
    ensures
        s.taken().pending is None,
        s.taken().taken() == s.taken(),
{
}

/// Of several requests in one frame the last one counts.
pub proof fn law_last_request_counts(s: Switch, index: usize)
    ensures
        ({
            let launched = Switch { pending: Some(index), pending_summon: false, ..s };
            let both = Switch { pending: Some(0), pending_summon: true, ..launched };
            &&& both == (Switch { pending: Some(0), pending_summon: true, ..s })
            &&& launched.taken().resume is None
            &&& both.taken().resume == Some(s.current)
        }),
{
}

// ---- the table as text --------------------------------------------------------------

/// One table entry.
pub open spec fn entry_json(a: EmbeddedApp) -> Seq<char> {
    "{\"output\":"@ + json_str(a.output@) + ",\"id\":"@ + json_str(a.id@) + ",\"title\":"@
        + json_str(a.title@) + seq!['}']
}

/// The first `n` table entries, with commas between them.
pub open spec fn entries_json(apps: Seq<EmbeddedApp>, n: int) -> Seq<char>
    decreases n,
{
    if n <= 0 {
        Seq::empty()
    } else if n == 1 {
        entry_json(apps[0])
    } else {
        entries_json(apps, n - 1) + seq![','] + entry_json(apps[n - 1])
    }
}

/// The table with the running app and the one to come back to.
pub open spec fn switch_json(s: Switch, apps: Seq<EmbeddedApp>) -> Seq<char> {
    "{\"apps\":["@ + entries_json(apps, apps.len() as int) + "],\"current\":"@ + json_str(
        apps[s.current as int].output@,
    ) + ",\"resume\":"@ + (match s.resume {
        Some(i) => json_str(apps[i as int].output@),
        None => "null"@,
    }) + seq!['}']
}

fn push_entry(out: &mut String, a: &EmbeddedApp)
    ensures
        final(out)@ == old(out)@ + entry_json(*a),
{
    out.append("{\"output\":");
    push_json_str(out, a.output.as_str());
    out.append(",\"id\":");
    push_json_str(out, a.id.as_str());
    out.append(",\"title\":");
    push_json_str(out, a.title.as_str());
    out.push('}');
    proof {
        assert(out@ =~= old(out)@ + entry_json(*a));
    }
}

impl Switch {
    /// The table and the state of switching as one JSON object.
    pub fn table_json(&self, apps: &[EmbeddedApp]) -> (r: String)
        requires
            self.current < apps@.len(),
            self.resume matches Some(i) ==> i < apps@.len(),
        ensures
            r@ == switch_json(*self, apps@),
    {
        let mut out: String = String::from_str("{\"apps\":[");
        let ghost head = out@;
        let mut i: usize = 0;
        proof {
            assert(head + Seq::<char>::empty() =~= head);
        }
        while i < apps.len()
            invariant
                i <= apps@.len(),
                out@ == head + entries_json(apps@, i as int),
            decreases apps@.len() - i,
        {
            if i > 0 {
                out.push(',');
            }
            push_entry(&mut out, &apps[i]);
            proof {
                assert(out@ =~= head + entries_json(apps@, i + 1));
            }
            i = i + 1;
        }
        out.append("],\"current\":");
        push_json_str(&mut out, apps[self.current].output.as_str());
        out.append(",\"resume\":");
        match self.resume {
            Some(k) => push_json_str(&mut out, apps[k].output.as_str()),
            None => out.append("null"),
        }
        out.push('}');
        proof {
            assert(out@ =~= switch_json(*self, apps@));
        }
        out
    }
}

/// The texture of a picture has its size and its bytes, and is sampled smoothly.
pub proof fn law_picture_texture(shot: Seq<u8>)
    requires
        shot.len() == 131072,
    ensures
        shot_texture(shot) == Some(
            TexModel {
                pixels: shot,
                w: 256,
                h: 128,
                psm: 3,
                palette: None,
                linear: true,
                revision: 0,
            },
        ),
{
    assert(shot.skip(0) =~= shot);
    assert(shot.take(131072) =~= shot);
}

/// Whether a text stands in JSON as it is.
pub open spec fn is_plain(s: Seq<char>) -> bool {
    forall|i: int| 0 <= i < s.len() ==> (#[trigger] s[i]) != '"' && s[i] != '\\' && s[i] as int >= 0x20
}

proof fn lemma_plain_json(s: Seq<char>)
    requires
        is_plain(s),
    ensures
        json_str(s) == seq!['"'] + s + seq!['"'],
{
    lemma_plain_chars(s);
}

proof fn lemma_plain_chars(s: Seq<char>)
    requires
        is_plain(s),
    ensures
        crate::json::json_chars(s) == s,
    decreases s.len(),
{
    if s.len() > 0 {
        assert forall|i: int| 0 <= i < s.len() - 1 implies (#[trigger] s.drop_last()[i]) != '"'
            && s.drop_last()[i] != '\\' && s.drop_last()[i] as int >= 0x20 by {
            assert(s[i] == s.drop_last()[i]);
        }
        lemma_plain_chars(s.drop_last());
        assert(s =~= s.drop_last() + seq![s.last()]);
    } else {
        assert(crate::json::json_chars(s) =~= s);
    }
}

/// What a guest is told of an app: its output, its id and its title under these
/// names.
pub proof fn law_app_is_told(a: EmbeddedApp)
    requires
        is_plain(a.output@),
        is_plain(a.id@),
        is_plain(a.title@),
    ensures
        entry_json(a) == "{\"output\":\""@ + a.output@ + "\",\"id\":\""@ + a.id@
            + "\",\"title\":\""@ + a.title@ + "\"}"@,
{
    lemma_plain_json(a.output@);
    lemma_plain_json(a.id@);
    lemma_plain_json(a.title@);
    reveal_strlit("{\"output\":\"");
    reveal_strlit("\",\"id\":\"");
    reveal_strlit("\",\"title\":\"");
    reveal_strlit("\"}");
    reveal_strlit("{\"output\":");
    reveal_strlit(",\"id\":");
    reveal_strlit(",\"title\":");
    let q = seq!['"'];
    assert("{\"output\":\""@ =~= "{\"output\":"@ + q);
    assert("\",\"id\":\""@ =~= q + ",\"id\":"@ + q);
    assert("\",\"title\":\""@ =~= q + ",\"title\":"@ + q);
    assert("\"}"@ =~= q + seq!['}']);
    assert(entry_json(a) =~= "{\"output\":\""@ + a.output@ + "\",\"id\":\""@ + a.id@
        + "\",\"title\":\""@ + a.title@ + "\"}"@);
}

/// What a guest is told of the switch: the apps in their order with commas
/// between them, the app that runs, and the app to come back to or null.
pub proof fn law_switch_is_told(s: Switch, apps: Seq<EmbeddedApp>, n: int)
    requires
        0 < n,
        s.current < apps.len(),
        s.resume matches Some(i) ==> i < apps.len() && is_plain(apps[i as int].output@),
        is_plain(apps[s.current as int].output@),
    ensures
        entries_json(apps, 0).len() == 0,
        entries_json(apps, 1) == entry_json(apps[0]),
        entries_json(apps, n + 1) == entries_json(apps, n) + seq![','] + entry_json(apps[n]),
        s.resume is None ==> switch_json(s, apps) == "{\"apps\":["@ + entries_json(
            apps,
            apps.len() as int,
        ) + "],\"current\":\""@ + apps[s.current as int].output@ + "\",\"resume\":null}"@,
        s.resume matches Some(i) ==> switch_json(s, apps) == "{\"apps\":["@ + entries_json(
            apps,
            apps.len() as int,
        ) + "],\"current\":\""@ + apps[s.current as int].output@ + "\",\"resume\":\""@
            + apps[i as int].output@ + "\"}"@,
{
    let q = seq!['"'];
    lemma_plain_json(apps[s.current as int].output@);
    reveal_strlit("],\"current\":");
    reveal_strlit("],\"current\":\"");
    reveal_strlit(",\"resume\":");
    assert("],\"current\":\""@ =~= "],\"current\":"@ + q);
    match s.resume {
        Some(i) => {
            lemma_plain_json(apps[i as int].output@);
            reveal_strlit("\",\"resume\":\"");
            reveal_strlit("\"}");
            assert("\",\"resume\":\""@ =~= q + ",\"resume\":"@ + q);
            assert("\"}"@ =~= q + seq!['}']);
            assert(switch_json(s, apps) =~= "{\"apps\":["@ + entries_json(apps, apps.len() as int)
                + "],\"current\":\""@ + apps[s.current as int].output@ + "\",\"resume\":\""@
                + apps[i as int].output@ + "\"}"@);
        },
        None => {
            reveal_strlit("null");
            reveal_strlit("\",\"resume\":null}");
            assert("\",\"resume\":null}"@ =~= q + ",\"resume\":"@ + "null"@ + seq!['}']);
            assert(switch_json(s, apps) =~= "{\"apps\":["@ + entries_json(apps, apps.len() as int)
                + "],\"current\":\""@ + apps[s.current as int].output@ + "\",\"resume\":null}"@);
        },
    }
}

} // verus!
