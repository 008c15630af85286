//! Properties, style records, and what they come to for a node.
//!
//! A property is a number below 256; its value is 32 bits, read as a floating
//! point pattern, a colour or an integer as the catalogue says.
use vstd::prelude::*;

verus! {

// ---- the catalogue ------------------------------------------------------------------

/// Value kind of a number that is no property.
pub const KIND_NONE: u8 = 0xff;

/// Value kind of floating point patterns.
pub const KIND_F32: u8 = 0;

/// Value kind of colours.
pub const KIND_COLOR: u8 = 1;

/// Animation bit of a property that cannot be animated.
pub const ANIM_NONE: u8 = 0xff;

/// The catalogue of properties, as scripts and style compilers know it.
pub struct PropTable {
    /// Value kind of each property.
    pub kinds: Vec<u8>,
    /// Bit of each property in a transition mask. Those from 32 on can be
    /// animated but do not take part in transitions.
    pub anim_bits: Vec<u8>,
    /// Whether a change of the property moves boxes.
    pub dirtying: Vec<bool>,
    pub width: u8,
    pub height: u8,
    pub flex_dir: u8,
    pub z_index: u8,
    /// Value of `flex_dir` for a column.
    pub flex_col: u32,
    /// The last easing curve.
    pub last_easing: u8,
}

impl PropTable {
    pub open spec fn wf(self) -> bool {
        self.kinds@.len() == 256 && self.anim_bits@.len() == 256 && self.dirtying@.len() == 256
    }

    pub open spec fn kind_of(self, prop: u8) -> u8 {
        self.kinds@[prop as int]
    }

    pub open spec fn is_size(self, prop: u8) -> bool {
        prop == self.width || prop == self.height
    }

    pub open spec fn moves_boxes(self, prop: u8) -> bool {
        self.dirtying@[prop as int]
    }

    /// Scripts can animate the property.
    pub open spec fn animatable(self, prop: u8) -> bool {
        self.anim_bits@[prop as int] != ANIM_NONE
    }

    pub open spec fn is_color(self, prop: u8) -> bool {
        self.kind_of(prop) == KIND_COLOR
    }

    /// A catalogue without properties.
    pub fn new() -> (t: PropTable)
        ensures
            t.wf(),
            forall|p: u8| #[trigger] t.kind_of(p) == KIND_NONE,
            forall|p: u8| t.anim_bits@[p as int] == ANIM_NONE,
            forall|p: u8| !#[trigger] t.moves_boxes(p),
    {
        let mut kinds: Vec<u8> = Vec::new();
        let mut anim_bits: Vec<u8> = Vec::new();
        let mut dirtying: Vec<bool> = Vec::new();
        let mut i: usize = 0;
        while i < 256
            invariant
                i <= 256,
                kinds@.len() == i,
                anim_bits@.len() == i,
                dirtying@.len() == i,
                forall|j: int| 0 <= j < i ==> #[trigger] kinds@[j] == KIND_NONE,
                forall|j: int| 0 <= j < i ==> #[trigger] anim_bits@[j] == ANIM_NONE,
                forall|j: int| 0 <= j < i ==> !#[trigger] dirtying@[j],
            decreases 256 - i,
        {
            kinds.push(KIND_NONE);
            anim_bits.push(ANIM_NONE);
            dirtying.push(false);
            i = i + 1;
        }
        PropTable { kinds, anim_bits, dirtying, width: 0, height: 1, flex_dir: 2, z_index: 3, flex_col: 0, last_easing: 0 }
    }

    /// Enters a property.
    pub fn define(&mut self, prop: u8, kind: u8, anim_bit: u8, dirtying: bool)
        requires
            old(self).wf(),
        ensures
            final(self).wf(),
            final(self).kinds@ == old(self).kinds@.update(prop as int, kind),
            final(self).anim_bits@ == old(self).anim_bits@.update(prop as int, anim_bit),
            final(self).dirtying@ == old(self).dirtying@.update(prop as int, dirtying),
            final(self).width == old(self).width,
            final(self).height == old(self).height,
            final(self).flex_dir == old(self).flex_dir,
            final(self).z_index == old(self).z_index,
            final(self).flex_col == old(self).flex_col,
            final(self).last_easing == old(self).last_easing,
    {
        self.kinds.set(prop as usize, kind);
        self.anim_bits.set(prop as usize, anim_bit);
        self.dirtying.set(prop as usize, dirtying);
    }
}

// ---- lists of values ------------------------------------------------------------------

/// The value of a property in a list, the first one where there are several.
pub open spec fn lookup(entries: Seq<(u8, u32)>, prop: u8) -> Option<u32>
    decreases entries.len(),
{
    if entries.len() == 0 {
        None
    } else if entries[0].0 == prop {
        Some(entries[0].1)
    } else {
        lookup(entries.drop_first(), prop)
    }
}

/// Two lists say the same of every property but `prop`.
pub open spec fn same_but(a: Seq<(u8, u32)>, b: Seq<(u8, u32)>, prop: u8) -> bool {
    forall|q: u8| q != prop ==> #[trigger] lookup(a, q) == lookup(b, q)
}

/// Finds the value of a property.
pub fn find_entry(entries: &Vec<(u8, u32)>, prop: u8) -> (r: Option<u32>)
    ensures
        r == lookup(entries@, prop),
{
    let mut i: usize = 0;
    proof {
        assert(entries@.skip(0) =~= entries@);
    }
    while i < entries.len()
        invariant
            i <= entries@.len(),
            lookup(entries@.skip(i as int), prop) == lookup(entries@, prop),
        decreases entries@.len() - i,
    {
        proof {
            assert(entries@.skip(i as int).drop_first() =~= entries@.skip(i + 1));
        }
        if entries[i].0 == prop {
            return Some(entries[i].1);
        }
        i = i + 1;
    }
    None
}

proof fn lemma_lookup_update(entries: Seq<(u8, u32)>, i: int, bits: u32, q: u8)
    requires
        0 <= i < entries.len(),
        forall|j: int| 0 <= j < i ==> #[trigger] entries[j].0 != entries[i].0,
    ensures
        lookup(entries.update(i, (entries[i].0, bits)), q) == (if q == entries[i].0 {
            Some(bits)
        } else {
            lookup(entries, q)
        }),
    decreases entries.len(),
{
    let after = entries.update(i, (entries[i].0, bits));
    if i == 0 {
        assert(after.drop_first() =~= entries.drop_first());
    } else {
        let rest = entries.drop_first();
        assert forall|j: int| 0 <= j < i - 1 implies #[trigger] rest[j].0 != rest[i - 1].0 by {
            assert(rest[j] == entries[j + 1]);
        }
        assert(after.drop_first() =~= rest.update(i - 1, (rest[i - 1].0, bits)));
        lemma_lookup_update(rest, i - 1, bits, q);
        assert(entries[0].0 != entries[i].0);
    }
}

pub proof fn lemma_lookup_push(entries: Seq<(u8, u32)>, e: (u8, u32), q: u8)
    ensures
        lookup(entries.push(e), q) == (match lookup(entries, q) {
            Some(v) => Some(v),
            None => if e.0 == q {
                Some(e.1)
            } else {
                None
            },
        }),
    decreases entries.len(),
{
    if entries.len() == 0 {
        assert(entries.push(e).drop_first() =~= Seq::<(u8, u32)>::empty());
        assert(lookup(entries.push(e).drop_first(), q) is None);
    } else {
        assert(entries.push(e).drop_first() =~= entries.drop_first().push(e));
        lemma_lookup_push(entries.drop_first(), e, q);
    }
}

/// No entry of the list is of the property.
proof fn lemma_lookup_none(entries: Seq<(u8, u32)>, prop: u8)
    requires
        forall|j: int| 0 <= j < entries.len() ==> #[trigger] entries[j].0 != prop,
    ensures
        lookup(entries, prop) is None,
    decreases entries.len(),
{
    if entries.len() > 0 {
        let rest = entries.drop_first();
        assert forall|j: int| 0 <= j < rest.len() implies #[trigger] rest[j].0 != prop by {
            assert(rest[j] == entries[j + 1]);
        }
        assert(entries[0].0 != prop);
        lemma_lookup_none(rest, prop);
    }
}

/// Sets the value of a property.
pub fn put_entry(entries: &mut Vec<(u8, u32)>, prop: u8, bits: u32)
    ensures
        lookup(final(entries)@, prop) == Some(bits),
        same_but(final(entries)@, old(entries)@, prop),
{
    let ghost before = entries@;
    let mut i: usize = 0;
    while i < entries.len()
        invariant
            entries@ == before,
            before == old(entries)@,
            i <= entries@.len(),
            forall|j: int| 0 <= j < i ==> #[trigger] entries@[j].0 != prop,
        decreases entries@.len() - i,
    {
        if entries[i].0 == prop {
            entries.set(i, (prop, bits));
            proof {
                assert(entries@ =~= before.update(i as int, (before[i as int].0, bits)));
                assert forall|q: u8| #[trigger] lookup(entries@, q) == (if q == prop {
                    Some(bits)
                } else {
                    lookup(before, q)
                }) by {
                    lemma_lookup_update(before, i as int, bits, q);
                }
            }
            return;
        }
        i = i + 1;
    }
    entries.push((prop, bits));
    proof {
        lemma_lookup_none(before, prop);
        assert forall|q: u8| #[trigger] lookup(entries@, q) == (if q == prop {
            Some(bits)
        } else {
            lookup(before, q)
        }) by {
            lemma_lookup_push(before, (prop, bits), q);
        }
    }
}

/// Removes a property.
pub fn remove_entry(entries: &mut Vec<(u8, u32)>, prop: u8)
    ensures
        lookup(final(entries)@, prop) is None,
        same_but(final(entries)@, old(entries)@, prop),
{
    let mut kept: Vec<(u8, u32)> = Vec::new();
    let mut i: usize = 0;
    proof {
        assert(entries@.take(0) =~= Seq::<(u8, u32)>::empty());
        assert(kept@ =~= Seq::<(u8, u32)>::empty());
    }
    while i < entries.len()
        invariant
            entries@ == old(entries)@,
            i <= entries@.len(),
            forall|j: int| 0 <= j < kept@.len() ==> #[trigger] kept@[j].0 != prop,
            same_but(kept@, entries@.take(i as int), prop),
        decreases entries@.len() - i,
    {
        let e = entries[i];
        let ghost before = kept@;
        if e.0 != prop {
            kept.push(e);
        }
        proof {
            assert(entries@.take(i + 1) =~= entries@.take(i as int).push(e));
            assert forall|q: u8| q != prop implies #[trigger] lookup(kept@, q) == lookup(
                entries@.take(i + 1),
                q,
            ) by {
                lemma_lookup_push(entries@.take(i as int), e, q);
                lemma_lookup_push(before, e, q);
            }
        }
        i = i + 1;
    }
    proof {
        assert(entries@.take(i as int) =~= entries@);
        lemma_lookup_none(kept@, prop);
    }
    *entries = kept;
}

// ---- records ----------------------------------------------------------------------------

/// How a change of style is animated.
#[derive(Clone, Copy)]
pub struct Transition {
    /// Bits of the properties that take part.
    pub mask: u32,
    pub dur_ms: u16,
    pub easing: u8,
    pub delay_ms: u16,
}

/// The timelines a style plays, in order; later ones win.
pub struct AnimationBlock {
    pub anims: Vec<u16>,
    /// Frames after which all of them start over; 0 for never.
    pub loop_frames: u16,
}

/// A style.
pub struct StyleRecord {
    pub base: Vec<(u8, u32)>,
    /// Values that hold while the node has the focus.
    pub focus: Vec<(u8, u32)>,
    /// Values that hold while the node is pressed.
    pub active: Vec<(u8, u32)>,
    pub transition: Option<Transition>,
    pub animation: Option<AnimationBlock>,
}

/// Values of one property over the frames of a period, the end included.
pub struct TimelineTrack {
    pub prop: u8,
    pub samples: Vec<u32>,
}

/// A baked animation.
pub struct Timeline {
    pub delay_frames: u16,
    pub period_frames: u16,
    /// 0 for without end.
    pub iterations: u16,
    /// The values of the first frame hold during the delay.
    pub fill_backwards: bool,
    /// The values of the last frame hold after the end.
    pub fill_forwards: bool,
    pub tracks: Vec<TimelineTrack>,
}

impl Timeline {
    /// A period takes some time and every track has a value for each frame of
    /// it.
    pub open spec fn wf(self) -> bool {
        &&& self.period_frames > 0
        &&& forall|k: int|
            #![trigger self.tracks@[k]]
            0 <= k < self.tracks@.len() ==> self.tracks@[k].samples@.len() == self.period_frames + 1
    }
}

/// All styles and baked animations.
pub struct StyleTable {
    pub records: Vec<StyleRecord>,
    pub anims: Vec<Timeline>,
    /// Value of each property that nothing sets.
    pub defaults: Vec<u32>,
}

impl StyleTable {
    pub open spec fn wf(self) -> bool {
        &&& self.defaults@.len() == 256
        &&& forall|a: int|
            #![trigger self.anims@[a]]
            0 <= a < self.anims@.len() ==> self.anims@[a].wf()
    }

    /// The record of a style id, when there is one.
    pub open spec fn record_of(self, style_id: i32) -> Option<StyleRecord> {
        if 0 <= style_id < self.records@.len() {
            Some(self.records@[style_id as int])
        } else {
            None
        }
    }

    /// A table without styles, in which every property is zero.
    pub fn new() -> (t: StyleTable)
        ensures
            t.wf(),
            t.records@.len() == 0,
            t.anims@.len() == 0,
            forall|p: int| 0 <= p < 256 ==> #[trigger] t.defaults@[p] == 0,
    {
        let mut defaults: Vec<u32> = Vec::new();
        let mut i: usize = 0;
        while i < 256
            invariant
                i <= 256,
                defaults@.len() == i,
                forall|j: int| 0 <= j < i ==> #[trigger] defaults@[j] == 0,
            decreases 256 - i,
        {
            defaults.push(0);
            i = i + 1;
        }
        StyleTable { records: Vec::new(), anims: Vec::new(), defaults }
    }
}

// ---- resolution -----------------------------------------------------------------------

/// What a node brings to the resolution of its style.
pub struct Styled {
    pub style_id: i32,
    pub focused: bool,
    pub active: bool,
    /// Values set one by one.
    pub overrides: Vec<(u8, u32)>,
    /// Values of running animations.
    pub anim_values: Vec<(u8, u32)>,
}

/// The first of two values that is there.
pub open spec fn or_else(a: Option<u32>, b: Option<u32>) -> Option<u32> {
    if a is Some {
        a
    } else {
        b
    }
}

/// The value that a record gives to a property of a node.
pub open spec fn record_value(rec: Option<StyleRecord>, focused: bool, active: bool, prop: u8) -> Option<
    u32,
> {
    match rec {
        None => None,
        Some(r) => or_else(
            if active {
                lookup(r.active@, prop)
            } else {
                None
            },
            or_else(
                if focused {
                    lookup(r.focus@, prop)
                } else {
                    None
                },
                lookup(r.base@, prop),
            ),
        ),
    }
}

/// The value of a property of a node: that of a running animation where those
/// count, else one set on the node, else that of its style and variants, else
/// the default.
pub open spec fn value_of(n: Styled, table: StyleTable, with_anims: bool, prop: u8) -> u32 {
    match or_else(
        if with_anims {
            lookup(n.anim_values@, prop)
        } else {
            None
        },
        or_else(
            lookup(n.overrides@, prop),
            record_value(table.record_of(n.style_id), n.focused, n.active, prop),
        ),
    ) {
        Some(v) => v,
        None => table.defaults@[prop as int],
    }
}

fn record_entry(rec: &StyleRecord, focused: bool, active: bool, prop: u8) -> (r: Option<u32>)
    ensures
        r == record_value(Some(*rec), focused, active, prop),
{
    if active {
        let v = find_entry(&rec.active, prop);
        if v.is_some() {
            return v;
        }
    }
    if focused {
        let v = find_entry(&rec.focus, prop);
        if v.is_some() {
            return v;
        }
    }
    find_entry(&rec.base, prop)
}

impl Styled {
    /// The value of one property.
    pub fn resolve_prop(&self, table: &StyleTable, with_anims: bool, prop: u8) -> (bits: u32)
        requires
            table.wf(),
        ensures
            bits == value_of(*self, *table, with_anims, prop),
    {
        if with_anims {
            match find_entry(&self.anim_values, prop) {
                Some(v) => return v,
                None => {},
            }
        }
        match find_entry(&self.overrides, prop) {
            Some(v) => return v,
            None => {},
        }
        if self.style_id >= 0 && (self.style_id as usize) < table.records.len() {
            let rec = &table.records[self.style_id as usize];
            match record_entry(rec, self.focused, self.active, prop) {
                Some(v) => return v,
                None => {},
            }
        }
        table.defaults[prop as usize]
    }

    /// The values of all properties, by number.
    pub fn resolve(&self, table: &StyleTable, with_anims: bool) -> (r: Vec<u32>)
        requires
            table.wf(),
        ensures
            r@.len() == 256,
            forall|p: u8|
                #![trigger r@[p as int]]
                r@[p as int] == value_of(*self, *table, with_anims, p),
    {
        let mut r: Vec<u32> = Vec::new();
        let mut i: usize = 0;
        while i < 256
            invariant
                table.wf(),
                i <= 256,
                r@.len() == i,
                forall|p: u8|
                    #![trigger r@[p as int]]
                    p < i ==> r@[p as int] == value_of(*self, *table, with_anims, p),
            decreases 256 - i,
        {
            let bits: u32 = self.resolve_prop(table, with_anims, i as u8);
            r.push(bits);
            i = i + 1;
        }
        r
    }
}

/// What an animation writes shows through everything else; once its entry is
/// gone, a value set on the node shows through its style.
pub proof fn law_precedence(n: Styled, table: StyleTable, prop: u8)
    ensures
        lookup(n.anim_values@, prop) matches Some(v) ==> value_of(n, table, true, prop) == v,
        lookup(n.anim_values@, prop) is None ==> value_of(n, table, true, prop) == value_of(
            n,
            table,
            false,
            prop,
        ),
        lookup(n.overrides@, prop) matches Some(v) ==> value_of(n, table, false, prop) == v,
{
}

} // verus!
