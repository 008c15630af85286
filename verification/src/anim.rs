//! Running animations: one track for each animated property of a node.
use crate::constants::{ID_GEN_MASK, ID_SLOT_MASK};
use crate::tree::{id_gens, id_space, next_gen};
use vstd::prelude::*;

verus! {

/// A running animation of one property from one value to another. How it gets
/// there is computed elsewhere.
#[derive(Clone, Copy)]
pub struct Track {
    pub alive: bool,
    pub gen: u16,
    pub node: i32,
    pub prop: u8,
    pub is_color: bool,
    /// Started by a script, and not by a change of style.
    pub explicit: bool,
    pub from: u32,
    pub to: u32,
    pub dur_ms: u32,
    pub easing: u8,
    pub delay_ms: u32,
    /// Steps per second.
    pub hz: u32,
}

/// What a new track does.
#[derive(Clone, Copy)]
pub struct TrackSpec {
    pub node: i32,
    pub prop: u8,
    pub is_color: bool,
    pub explicit: bool,
    pub from: u32,
    pub to: u32,
    pub dur_ms: u32,
    pub easing: u8,
    pub delay_ms: u32,
    pub hz: u32,
}

/// The track with its place given up.
pub open spec fn ended(t: Track) -> Track {
    Track { alive: false, gen: next_gen(t.gen), ..t }
}

/// A live track of generation `gen` that does `s`.
pub open spec fn started(s: TrackSpec, gen: u16) -> Track {
    Track {
        alive: true,
        gen,
        node: s.node,
        prop: s.prop,
        is_color: s.is_color,
        explicit: s.explicit,
        from: s.from,
        to: s.to,
        dur_ms: s.dur_ms,
        easing: s.easing,
        delay_ms: s.delay_ms,
        hz: s.hz,
    }
}

/// A track runs on this property of this node.
pub open spec fn runs_on(t: Track, node: i32, prop: u8) -> bool {
    t.alive && t.node == node && t.prop == prop
}

/// Some track runs on this property of this node.
pub open spec fn some_runs_on(tracks: Seq<Track>, node: i32, prop: u8) -> bool {
    exists|i: int| 0 <= i < tracks.len() && runs_on(#[trigger] tracks[i], node, prop)
}

/// The tracks with those on this property of this node ended.
pub open spec fn without_prop(tracks: Seq<Track>, node: i32, prop: u8) -> Seq<Track> {
    Seq::new(
        tracks.len(),
        |i: int|
            if runs_on(tracks[i], node, prop) {
                ended(tracks[i])
            } else {
                tracks[i]
            },
    )
}

/// The tracks with those on this node ended.
pub open spec fn without_node(tracks: Seq<Track>, node: i32) -> Seq<Track> {
    Seq::new(
        tracks.len(),
        |i: int|
            if tracks[i].alive && tracks[i].node == node {
                ended(tracks[i])
            } else {
                tracks[i]
            },
    )
}

/// The first place from `i` on without a live track.
pub open spec fn idle_from(tracks: Seq<Track>, i: int) -> int
    decreases tracks.len() - i,
{
    if 0 <= i < tracks.len() && tracks[i].alive {
        idle_from(tracks, i + 1)
    } else {
        i
    }
}

/// The tracks after a new one was started, and its id: it takes the place of
/// one on the same property, and goes to the first place free, or 0 where
/// there is none.
pub open spec fn spawned(tracks: Seq<Track>, s: TrackSpec) -> (Seq<Track>, int) {
    let t = without_prop(tracks, s.node, s.prop);
    let at = idle_from(t, 1);
    if at < t.len() {
        (t.update(at, started(s, t[at].gen)), t[at].gen as int * id_space() + at)
    } else if at < id_space() {
        (t.push(started(s, 0)), at)
    } else {
        (t, 0)
    }
}

/// The running animations. Place 0 is not used, so that ids are not 0.
pub struct Anims {
    pub tracks: Vec<Track>,
}

impl Anims {
    /// Places fit the id space, and no property of a node has two tracks.
    pub open spec fn wf(self) -> bool {
        tracks_wf(self.tracks@)
    }
}

pub open spec fn tracks_wf(tracks: Seq<Track>) -> bool {
    &&& 1 <= tracks.len() <= id_space()
    &&& !tracks[0].alive
    &&& forall|i: int| #![trigger tracks[i]] 0 <= i < tracks.len() ==> (tracks[i].gen as int) < id_gens()
    &&& forall|i: int, j: int|
        #![trigger tracks[i], tracks[j]]
        0 <= i < tracks.len() && 0 <= j < tracks.len() && tracks[i].alive && tracks[j].alive
            && tracks[i].node == tracks[j].node && tracks[i].prop == tracks[j].prop ==> i == j
}

pub proof fn lemma_idle_from(tracks: Seq<Track>, i: int)
    requires
        0 <= i <= tracks.len(),
    ensures
        i <= idle_from(tracks, i) <= tracks.len(),
        idle_from(tracks, i) < tracks.len() ==> !tracks[idle_from(tracks, i)].alive,
    decreases tracks.len() - i,
{
    if i < tracks.len() && tracks[i].alive {
        lemma_idle_from(tracks, i + 1);
    }
}

/// Starting, and ending, tracks keeps them in order.
pub proof fn lemma_spawned_wf(tracks: Seq<Track>, s: TrackSpec)
    requires
        tracks_wf(tracks),
    ensures
        tracks_wf(without_prop(tracks, s.node, s.prop)),
        tracks_wf(spawned(tracks, s).0),
        0 <= spawned(tracks, s).1 <= i32::MAX,
{
    let t = without_prop(tracks, s.node, s.prop);
    lemma_without_prop_wf(tracks, s.node, s.prop);
    lemma_idle_from(t, 1);
    let at = idle_from(t, 1);
    let after = spawned(tracks, s).0;
    if at < t.len() {
        assert((t[at].gen as int) < id_gens());
    }
    assert forall|i: int| 0 <= i < t.len() implies !runs_on(#[trigger] t[i], s.node, s.prop) by {}
    assert forall|i: int, j: int|
        #![trigger after[i], after[j]]
        0 <= i < after.len() && 0 <= j < after.len() && after[i].alive && after[j].alive
            && after[i].node == after[j].node && after[i].prop == after[j].prop implies i == j by {
        if i != at && i < t.len() {
            assert(after[i] == t[i]);
        }
        if j != at && j < t.len() {
            assert(after[j] == t[j]);
        }
    }
    assert forall|i: int| #![trigger after[i]] 0 <= i < after.len() implies (after[i].gen as int)
        < id_gens() by {
        if i != at && i < t.len() {
            assert(after[i] == t[i]);
        }
    }
}

pub proof fn lemma_without_prop_wf(tracks: Seq<Track>, node: i32, prop: u8)
    requires
        tracks_wf(tracks),
    ensures
        tracks_wf(without_prop(tracks, node, prop)),
{
    let t = without_prop(tracks, node, prop);
    assert forall|i: int| #![trigger t[i]] 0 <= i < t.len() implies (t[i].gen as int) < id_gens() by {
        assert((tracks[i].gen as int) < id_gens());
    }
    assert forall|i: int, j: int|
        #![trigger t[i], t[j]]
        0 <= i < t.len() && 0 <= j < t.len() && t[i].alive && t[j].alive && t[i].node == t[j].node
            && t[i].prop == t[j].prop implies i == j by {
        assert(t[i] == tracks[i] && t[j] == tracks[j]);
    }
}

pub proof fn lemma_without_node_wf(tracks: Seq<Track>, node: i32)
    requires
        tracks_wf(tracks),
    ensures
        tracks_wf(without_node(tracks, node)),
{
    let t = without_node(tracks, node);
    assert forall|i: int| #![trigger t[i]] 0 <= i < t.len() implies (t[i].gen as int) < id_gens() by {
        assert((tracks[i].gen as int) < id_gens());
    }
    assert forall|i: int, j: int|
        #![trigger t[i], t[j]]
        0 <= i < t.len() && 0 <= j < t.len() && t[i].alive && t[j].alive && t[i].node == t[j].node
            && t[i].prop == t[j].prop implies i == j by {
        assert(t[i] == tracks[i] && t[j] == tracks[j]);
    }
}

fn end_track(t: Track) -> (r: Track)
    requires
        (t.gen as int) < id_gens(),
    ensures
        r == ended(t),
{
    Track { alive: false, gen: ((t.gen as u32 + 1) % (ID_GEN_MASK + 1)) as u16, ..t }
}

impl Anims {
    /// No animation runs.
    pub fn new() -> (a: Anims)
        ensures
            a.wf(),
            a.tracks@.len() == 1,
    {
        let mut tracks: Vec<Track> = Vec::new();
        tracks.push(
            Track {
                alive: false,
                gen: 0,
                node: 0,
                prop: 0,
                is_color: false,
                explicit: false,
                from: 0,
                to: 0,
                dur_ms: 0,
                easing: 0,
                delay_ms: 0,
                hz: 0,
            },
        );
        Anims { tracks }
    }

    /// The place of the track that an id names; `None` once it has ended.
    pub open spec fn place(tracks: Seq<Track>, id: int) -> Option<int> {
        let at = id % id_space();
        if 0 <= id && at < tracks.len() && tracks[at].alive && tracks[at].gen as int == id
            / id_space() {
            Some(at)
        } else {
            None
        }
    }

    pub fn resolve(&self, id: i32) -> (r: Option<u32>)
        requires
            self.wf(),
        ensures
            r is Some <==> Anims::place(self.tracks@, id as int) is Some,
            r is Some ==> r->0 == Anims::place(self.tracks@, id as int)->0,
    {
        if id < 0 {
            return None;
        }
        let u: u32 = id as u32;
        let gen: u32 = u / (ID_SLOT_MASK + 1);
        let at: u32 = u % (ID_SLOT_MASK + 1);
        if at as usize >= self.tracks.len() {
            return None;
        }
        let t = self.tracks[at as usize];
        if t.alive && t.gen as u32 == gen {
            Some(at)
        } else {
            None
        }
    }

    /// Ends the track in a place.
    pub fn kill(&mut self, at: u32)
        requires
            old(self).wf(),
            at < old(self).tracks@.len(),
        ensures
            final(self).wf(),
            final(self).tracks@ == old(self).tracks@.update(
                at as int,
                ended(old(self).tracks@[at as int]),
            ),
    {
        let t = self.tracks[at as usize];
        self.tracks.set(at as usize, end_track(t));
        proof {
            let (a, b) = (old(self).tracks@, self.tracks@);
            assert forall|i: int, j: int|
                #![trigger b[i], b[j]]
                0 <= i < b.len() && 0 <= j < b.len() && b[i].alive && b[j].alive && b[i].node
                    == b[j].node && b[i].prop == b[j].prop implies i == j by {
                assert(b[i] == a[i] && b[j] == a[j]);
            }
        }
    }

    /// Ends the tracks on a property of a node.
    pub fn kill_for(&mut self, node: i32, prop: u8)
        requires
            old(self).wf(),
        ensures
            final(self).wf(),
            final(self).tracks@ == without_prop(old(self).tracks@, node, prop),
    {
        let ghost before = self.tracks@;
        let mut i: usize = 0;
        while i < self.tracks.len()
            invariant
                tracks_wf(before),
                i <= self.tracks@.len(),
                self.tracks@.len() == before.len(),
                forall|j: int|
                    #![trigger self.tracks@[j]]
                    0 <= j < i ==> self.tracks@[j] == without_prop(before, node, prop)[j],
                forall|j: int|
                    #![trigger self.tracks@[j]]
                    i <= j < before.len() ==> self.tracks@[j] == before[j],
            decreases self.tracks@.len() - i,
        {
            let t = self.tracks[i];
            proof {
                assert(t == before[i as int]);
                assert((before[i as int].gen as int) < id_gens());
            }
            if t.alive && t.node == node && t.prop == prop {
                self.tracks.set(i, end_track(t));
            }
            i = i + 1;
        }
        proof {
            assert(self.tracks@ =~= without_prop(before, node, prop));
            lemma_without_prop_wf(before, node, prop);
        }
    }

    /// Ends all tracks on a node.
    pub fn kill_node(&mut self, node: i32)
        requires
            old(self).wf(),
        ensures
            final(self).wf(),
            final(self).tracks@ == without_node(old(self).tracks@, node),
    {
        let ghost before = self.tracks@;
        let mut i: usize = 0;
        while i < self.tracks.len()
            invariant
                tracks_wf(before),
                i <= self.tracks@.len(),
                self.tracks@.len() == before.len(),
                forall|j: int|
                    #![trigger self.tracks@[j]]
                    0 <= j < i ==> self.tracks@[j] == without_node(before, node)[j],
                forall|j: int|
                    #![trigger self.tracks@[j]]
                    i <= j < before.len() ==> self.tracks@[j] == before[j],
            decreases self.tracks@.len() - i,
        {
            let t = self.tracks[i];
            proof {
                assert(t == before[i as int]);
                assert((before[i as int].gen as int) < id_gens());
            }
            if t.alive && t.node == node {
                self.tracks.set(i, end_track(t));
            }
            i = i + 1;
        }
        proof {
            assert(self.tracks@ =~= without_node(before, node));
            lemma_without_node_wf(before, node);
        }
    }

    /// Whether a track runs on a property of a node.
    pub fn has_live(&self, node: i32, prop: u8) -> (r: bool)
        ensures
            r == some_runs_on(self.tracks@, node, prop),
    {
        let mut i: usize = 0;
        while i < self.tracks.len()
            invariant
                i <= self.tracks@.len(),
                forall|j: int| 0 <= j < i ==> !runs_on(#[trigger] self.tracks@[j], node, prop),
            decreases self.tracks@.len() - i,
        {
            let t = self.tracks[i];
            if t.alive && t.node == node && t.prop == prop {
                proof {
                    assert(runs_on(self.tracks@[i as int], node, prop));
                }
                return true;
            }
            i = i + 1;
        }
        false
    }

    /// Starts a track in place of any on the same property, and returns its
    /// id; 0 when there is no place for it.
    pub fn spawn(&mut self, s: TrackSpec) -> (id: i32)
        requires
            old(self).wf(),
        ensures
            final(self).wf(),
            (final(self).tracks@, id as int) == spawned(old(self).tracks@, s),
    {
        proof {
            lemma_spawned_wf(self.tracks@, s);
        }
        self.kill_for(s.node, s.prop);
        let ghost t = self.tracks@;
        let mut at: usize = 1;
        while at < self.tracks.len() && self.tracks[at].alive
            invariant
                1 <= at <= self.tracks@.len(),
                self.tracks@ == t,
                idle_from(t, at as int) == idle_from(t, 1),
            decreases self.tracks@.len() - at,
        {
            at = at + 1;
        }
        if at < self.tracks.len() {
            let gen: u16 = self.tracks[at].gen;
            proof {
                assert((t[at as int].gen as int) < id_gens());
            }
            self.tracks.set(
                at,
                Track {
                    alive: true,
                    gen,
                    node: s.node,
                    prop: s.prop,
                    is_color: s.is_color,
                    explicit: s.explicit,
                    from: s.from,
                    to: s.to,
                    dur_ms: s.dur_ms,
                    easing: s.easing,
                    delay_ms: s.delay_ms,
                    hz: s.hz,
                },
            );
            (gen as u32 * (ID_SLOT_MASK + 1) + at as u32) as i32
        } else if at <= ID_SLOT_MASK as usize {
            self.tracks.push(
                Track {
                    alive: true,
                    gen: 0,
                    node: s.node,
                    prop: s.prop,
                    is_color: s.is_color,
                    explicit: s.explicit,
                    from: s.from,
                    to: s.to,
                    dur_ms: s.dur_ms,
                    easing: s.easing,
                    delay_ms: s.delay_ms,
                    hz: s.hz,
                },
            );
            at as i32
        } else {
            0
        }
    }
}

/// A track that was started runs under its id, and it is the only one on its
/// property; the tracks on other properties go on.
pub proof fn law_spawned_track_runs(tracks: Seq<Track>, s: TrackSpec, i: int)
    requires
        tracks_wf(tracks),
    ensures
        ({
            let (after, id) = spawned(tracks, s);
            &&& id > 0 ==> Anims::place(after, id) is Some && runs_on(
                after[Anims::place(after, id)->0],
                s.node,
                s.prop,
            )
            &&& 0 <= i < tracks.len() && tracks[i].alive && !runs_on(tracks[i], s.node, s.prop)
                ==> after[i] == tracks[i]
        }),
{
    let t = without_prop(tracks, s.node, s.prop);
    lemma_spawned_wf(tracks, s);
    lemma_idle_from(t, 1);
    let at = idle_from(t, 1);
    let (after, id) = spawned(tracks, s);
    if id > 0 {
        if at < t.len() {
            assert((t[at].gen as int) < id_gens());
            assert(id % id_space() == at && id / id_space() == t[at].gen as int);
        } else {
            assert(id % id_space() == at && id / id_space() == 0);
        }
    }
}

/// A track that was started does what it was started for.
pub proof fn law_spawned_track_does(tracks: Seq<Track>, s: TrackSpec)
    requires
        tracks_wf(tracks),
    ensures
        ({
            let (after, id) = spawned(tracks, s);
            let t = after[Anims::place(after, id)->0];
            id > 0 ==> {
                &&& Anims::place(after, id) is Some
                &&& t.alive && t.node == s.node && t.prop == s.prop
                &&& t.is_color == s.is_color && t.explicit == s.explicit
                &&& t.from == s.from && t.to == s.to
                &&& t.dur_ms == s.dur_ms && t.easing == s.easing && t.delay_ms == s.delay_ms
                &&& t.hz == s.hz
            }
        }),
{
    let t = without_prop(tracks, s.node, s.prop);
    lemma_spawned_wf(tracks, s);
    lemma_idle_from(t, 1);
    let at = idle_from(t, 1);
    let (after, id) = spawned(tracks, s);
    if id > 0 {
        if at < t.len() {
            assert((t[at].gen as int) < id_gens());
            assert(id % id_space() == at && id / id_space() == t[at].gen as int);
        } else {
            assert(id % id_space() == at && id / id_space() == 0);
        }
    }
}

/// An animation finds a place as long as there is one: it gets the answer 0 only
/// when every id is taken by a running one.
pub proof fn law_tracks_find_a_place(tracks: Seq<Track>, s: TrackSpec)
    requires
        tracks_wf(tracks),
    ensures
        ({
            let (_after, id) = spawned(tracks, s);
            id == 0 ==> tracks.len() == id_space() && forall|i: int|
                1 <= i < tracks.len() ==> (#[trigger] tracks[i]).alive && !runs_on(
                    tracks[i],
                    s.node,
                    s.prop,
                )
        }),
{
    let t = without_prop(tracks, s.node, s.prop);
    lemma_spawned_wf(tracks, s);
    lemma_idle_from(t, 1);
    lemma_idle_all(t, 1);
    let at = idle_from(t, 1);
    assert forall|i: int| 1 <= i < at implies (#[trigger] tracks[i]).alive && !runs_on(
        tracks[i],
        s.node,
        s.prop,
    ) by {
        assert(t[i].alive);
    }
    if at < t.len() {
        assert(t[at].gen as int * id_space() + at > 0);
    }
}

proof fn lemma_idle_all(tracks: Seq<Track>, i: int)
    requires
        0 <= i <= tracks.len(),
    ensures
        forall|k: int| i <= k < idle_from(tracks, i) ==> (#[trigger] tracks[k]).alive,
    decreases tracks.len() - i,
{
    if i < tracks.len() && tracks[i].alive {
        lemma_idle_all(tracks, i + 1);
    }
}

/// Tracks that are stopped run no longer, and all others go on as they were.
pub proof fn law_stopped_tracks(tracks: Seq<Track>, node: i32, prop: u8, i: int)
    requires
        0 <= i < tracks.len(),
    ensures
        ({
            let (a, b) = (without_node(tracks, node)[i], without_prop(tracks, node, prop)[i]);
            let t = tracks[i];
            &&& without_node(tracks, node).len() == tracks.len()
            &&& without_prop(tracks, node, prop).len() == tracks.len()
            &&& t.node == node ==> !a.alive
            &&& t.node != node || !t.alive ==> a == t
            &&& t.node == node && t.prop == prop ==> !b.alive
            &&& t.node != node || t.prop != prop || !t.alive ==> b == t
            &&& a != t ==> a.gen != t.gen
        }),
{
}

} // verus!
