//! The texture table: generation-tagged handles over reusable slots, and the
//! readers of the asset blobs that fill it.
use crate::bytes::{le16, le32, rd_u16, rd_u32, to_vec, window};
use crate::constants::{
    IMG_FLAG_LINEAR, IMG_FLAG_RLE, PSM_4444, PSM_5650, PSM_8888, PSM_T8, TEX_GEN_MASK,
    TEX_MAX_DIM, TEX_PALETTE_BYTES, TEX_SLOT_MASK, TILESET_ABSENT, TILESET_DIR_ENTRY_SIZE,
    TILESET_FLAG_LINEAR, TILESET_FLAG_RLE, TILESET_MAGIC, TILESET_VERSION,
};
use crate::packbits::{packbits_decode, unpacked};
use vstd::prelude::*;

verus! {

// ---- model --------------------------------------------------------------------

/// What a texture holds.
#[verifier::ext_equal]
pub struct TexModel {
    pub pixels: Seq<u8>,
    pub w: u32,
    pub h: u32,
    pub psm: u32,
    pub palette: Option<Seq<u8>>,
    pub linear: bool,
    pub revision: u64,
}

impl TexModel {
    /// Its bytes are those of a picture of its size and format, and the table
    /// of 256 colours is there exactly for the format that needs one.
    pub open spec fn complete(self) -> bool {
        &&& bytes_per_pixel(self.psm) > 0
        &&& self.pixels.len() == self.w * self.h * bytes_per_pixel(self.psm)
        &&& self.palette is Some <==> self.psm == PSM_T8
        &&& self.palette matches Some(p) ==> p.len() == TEX_PALETTE_BYTES
    }
}

/// What a slot holds: the generation of its next or current handle, and the
/// live texture.
#[verifier::ext_equal]
pub struct SlotModel {
    pub gen: u16,
    pub tex: Option<TexModel>,
}

/// What a texture table holds: its slots, and the stack of reusable ones.
#[verifier::ext_equal]
pub struct TableModel {
    pub slots: Seq<SlotModel>,
    pub free: Seq<u32>,
}

/// Number of slots a handle can name.
pub open spec fn slot_space() -> int {
    0x10_0000
}

/// Number of generations a handle can tell apart.
pub open spec fn gen_space() -> int {
    0x800
}

/// The handle of generation `gen` of `slot`.
pub open spec fn handle_of(gen: int, slot: int) -> int {
    (gen % gen_space()) * slot_space() + slot
}

/// The slot that `handle` names, when that slot is live and of its generation.
pub open spec fn resolves(slots: Seq<SlotModel>, handle: int) -> Option<int> {
    let slot = handle % slot_space();
    if 0 <= handle && slot < slots.len() && slots[slot].tex is Some && slots[slot].gen as int
        % gen_space() == handle / slot_space() {
        Some(slot)
    } else {
        None
    }
}

impl TableModel {
    /// Slots fit the handle space; the free stack holds each empty slot once
    /// and nothing else; live textures are complete.
    pub open spec fn wf(self) -> bool {
        &&& self.slots.len() <= slot_space()
        &&& self.free.no_duplicates()
        &&& forall|i: int|
            #![trigger self.free[i]]
            0 <= i < self.free.len() ==> (self.free[i] as int) < self.slots.len()
                && self.slots[self.free[i] as int].tex is None
        &&& forall|s: int|
            #![trigger self.slots[s]]
            0 <= s < self.slots.len() ==> {
                &&& (self.slots[s].gen as int) < gen_space()
                &&& self.slots[s].tex is None ==> self.free.contains(s as u32)
                &&& self.slots[s].tex matches Some(t) ==> t.complete()
            }
    }

    /// The live texture behind `handle`.
    pub open spec fn live(self, handle: int) -> Option<TexModel> {
        match resolves(self.slots, handle) {
            Some(slot) => self.slots[slot].tex,
            None => None,
        }
    }

    /// The slot that the next texture goes to, or `None` when handles run out.
    pub open spec fn next_slot(self) -> Option<int> {
        if self.free.len() > 0 {
            Some(self.free.last() as int)
        } else if self.slots.len() < slot_space() {
            Some(self.slots.len() as int)
        } else {
            None
        }
    }

    /// The table after `tex` was stored, and the handle given out for it; the
    /// same table and -1 when handles run out.
    pub open spec fn stored(self, tex: TexModel) -> (TableModel, int) {
        match self.next_slot() {
            None => (self, -1),
            Some(slot) => if self.free.len() > 0 {
                let gen = self.slots[slot].gen;
                (
                    TableModel {
                        slots: self.slots.update(slot, SlotModel { gen, tex: Some(tex) }),
                        free: self.free.drop_last(),
                    },
                    handle_of(gen as int, slot),
                )
            } else {
                (
                    TableModel {
                        slots: self.slots.push(SlotModel { gen: 0, tex: Some(tex) }),
                        free: self.free,
                    },
                    handle_of(0, slot),
                )
            },
        }
    }

    /// The table after `handle` was released.
    pub open spec fn released(self, handle: int) -> TableModel {
        match resolves(self.slots, handle) {
            None => self,
            Some(slot) => TableModel {
                slots: self.slots.update(
                    slot,
                    SlotModel {
                        gen: ((self.slots[slot].gen as int + 1) % gen_space()) as u16,
                        tex: None,
                    },
                ),
                free: self.free.push(slot as u32),
            },
        }
    }
}

// ---- data ---------------------------------------------------------------------

/// One uploaded texture. Its pixel and palette bytes are its own copy.
pub struct Texture {
    pub data: Vec<u8>,
    pub w: u32,
    pub h: u32,
    /// Pixel format, one of the `PSM_*` numbers.
    pub psm: u32,
    /// 256 colours of four bytes; there exactly for `PSM_T8`.
    pub palette: Option<Vec<u8>>,
    /// Sample with bilinear filtering.
    pub linear: bool,
    /// Counts the times the bytes were overwritten in place.
    pub revision: u64,
}

pub open spec fn opt_bytes(v: Option<Vec<u8>>) -> Option<Seq<u8>> {
    match v {
        Some(b) => Some(b@),
        None => None,
    }
}

impl View for Texture {
    type V = TexModel;

    open spec fn view(&self) -> TexModel {
        TexModel {
            pixels: self.data@,
            w: self.w,
            h: self.h,
            psm: self.psm,
            palette: opt_bytes(self.palette),
            linear: self.linear,
            revision: self.revision,
        }
    }
}

impl Texture {
    pub fn pixels(&self) -> (r: &[u8])
        ensures
            r@ == self@.pixels,
    {
        self.data.as_slice()
    }

    /// The palette bytes.
    pub fn palette(&self) -> (r: Option<&[u8]>)
        ensures
            r is Some <==> self@.palette is Some,
            r is Some ==> r->0@ == self@.palette->0,
    {
        match &self.palette {
            Some(p) => Some(p.as_slice()),
            None => None,
        }
    }

    /// A borrowed view of this texture.
    pub fn as_view(&self) -> (v: TexView<'_>)
        ensures
            v.shows(self@),
    {
        TexView {
            pixels: self.pixels(),
            w: self.w,
            h: self.h,
            psm: self.psm,
            palette: self.palette(),
            linear: self.linear,
        }
    }
}

/// Borrowed view of one live texture, for backends to sample.
#[derive(Clone, Copy)]
pub struct TexView<'a> {
    pub pixels: &'a [u8],
    pub w: u32,
    pub h: u32,
    pub psm: u32,
    pub palette: Option<&'a [u8]>,
    pub linear: bool,
}

impl<'a> TexView<'a> {
    /// This view shows the contents `m`.
    pub open spec fn shows(self, m: TexModel) -> bool {
        &&& self.pixels@ == m.pixels
        &&& self.w == m.w
        &&& self.h == m.h
        &&& self.psm == m.psm
        &&& self.linear == m.linear
        &&& (self.palette is Some <==> m.palette is Some)
        &&& self.palette is Some ==> self.palette->0@ == m.palette->0
    }
}

/// One texture slot. The generation goes up when the slot is released, so that
/// every copy of an older handle stops resolving.
pub struct TexSlot {
    pub gen: u16,
    pub tex: Option<Texture>,
}

impl View for TexSlot {
    type V = SlotModel;

    open spec fn view(&self) -> SlotModel {
        SlotModel {
            gen: self.gen,
            tex: match self.tex {
                Some(t) => Some(t@),
                None => None,
            },
        }
    }
}

/// The models of a sequence of slots.
pub open spec fn slot_models(slots: Seq<TexSlot>) -> Seq<SlotModel> {
    Seq::new(slots.len(), |i: int| slots[i]@)
}

/// Builds the handle of a generation and a slot.
pub fn make_tex_handle(gen: u16, slot: u32) -> (handle: i32)
    ensures
        handle == handle_of(gen as int, slot as int % slot_space()),
        handle >= 0,
{
    let g: u32 = gen as u32 % (TEX_GEN_MASK + 1);
    let s: u32 = slot % (TEX_SLOT_MASK + 1);
    (g * (TEX_SLOT_MASK + 1) + s) as i32
}

/// The slot a handle names; `None` for negative, stale and released handles.
pub fn tex_resolve(slots: &[TexSlot], handle: i32) -> (r: Option<u32>)
    ensures
        r is Some <==> resolves(slot_models(slots@), handle as int) is Some,
        r is Some ==> r->0 == resolves(slot_models(slots@), handle as int)->0,
{
    if handle < 0 {
        return None;
    }
    let u: u32 = handle as u32;
    let gen: u32 = u / (TEX_SLOT_MASK + 1);
    let slot: u32 = u % (TEX_SLOT_MASK + 1);
    if slot as usize >= slots.len() {
        return None;
    }
    let s = &slots[slot as usize];
    if s.tex.is_some() && s.gen as u32 % (TEX_GEN_MASK + 1) == gen {
        Some(slot)
    } else {
        None
    }
}

/// Stores `tex` in the slot released last, or else in a new one, and returns
/// its handle; -1 when handles run out.
pub fn tex_alloc(slots: &mut Vec<TexSlot>, free: &mut Vec<u32>, tex: Texture) -> (handle: i32)
    requires
        (TableModel { slots: slot_models(old(slots)@), free: old(free)@ }).wf(),
        tex@.complete(),
    ensures
        ({
            let before = TableModel { slots: slot_models(old(slots)@), free: old(free)@ };
            let after = TableModel { slots: slot_models(final(slots)@), free: final(free)@ };
            &&& (after, handle as int) == before.stored(tex@)
            &&& after.wf()
            &&& handle < 0 ==> *final(slots) == *old(slots) && *final(free) == *old(free)
        }),
{
    let ghost before = TableModel { slots: slot_models(slots@), free: free@ };
    let ghost model = tex@;
    if free.len() > 0 {
        let slot: u32 = free[free.len() - 1];
        let _ = free.pop();
        let gen: u16 = slots[slot as usize].gen;
        slots.set(slot as usize, TexSlot { gen, tex: Some(tex) });
        proof {
            let after = TableModel { slots: slot_models(slots@), free: free@ };
            assert(after.slots =~= before.slots.update(
                slot as int,
                SlotModel { gen, tex: Some(model) },
            ));
            assert(after.free =~= before.free.drop_last());
            lemma_stored_wf(before, model);
        }
        make_tex_handle(gen, slot)
    } else {
        if slots.len() > TEX_SLOT_MASK as usize {
            return -1;
        }
        let slot: u32 = slots.len() as u32;
        slots.push(TexSlot { gen: 0, tex: Some(tex) });
        proof {
            let after = TableModel { slots: slot_models(slots@), free: free@ };
            assert(after.slots =~= before.slots.push(SlotModel { gen: 0, tex: Some(model) }));
            lemma_stored_wf(before, model);
        }
        make_tex_handle(0, slot)
    }
}

// ---- laws of the table ----------------------------------------------------------

pub proof fn lemma_stored_wf(t: TableModel, tex: TexModel)
    requires
        t.wf(),
        tex.complete(),
    ensures
        t.stored(tex).0.wf(),
{
    let after = t.stored(tex).0;
    if t.free.len() > 0 {
        let slot = t.free.last() as int;
        assert forall|s: int|
            #![trigger after.slots[s]]
            0 <= s < after.slots.len() && after.slots[s].tex is None implies after.free.contains(
            s as u32,
        ) by {
            assert(t.slots[s].tex is None);
            let i = choose|i: int| 0 <= i < t.free.len() && t.free[i] == s as u32;
            assert(s != slot);
            assert(after.free[i] == s as u32);
        }
        assert forall|i: int| #![trigger after.free[i]] 0 <= i < after.free.len() implies (
        after.free[i] as int) < after.slots.len() && after.slots[after.free[i] as int].tex is None by {
            assert(t.free[i] == after.free[i]);
            assert(t.free[i] != t.free[t.free.len() - 1]);
        }
    } else if t.slots.len() < slot_space() {
        assert forall|s: int|
            #![trigger after.slots[s]]
            0 <= s < after.slots.len() && after.slots[s].tex is None implies after.free.contains(
            s as u32,
        ) by {
            assert(t.slots[s].tex is None);
        }
    }
}

/// Whatever handle names a texture, its bytes fit its size and format, and it has
/// a palette exactly if its format needs one.
pub proof fn law_live_textures_are_complete(t: TableModel, handle: int)
    requires
        t.wf(),
        t.live(handle) is Some,
    ensures
        t.live(handle)->0.complete(),
{
}

/// A live slot is named by the handle of its generation, and handles are never
/// negative.
pub proof fn law_live_slot_has_a_handle(t: TableModel, slot: int)
    requires
        t.wf(),
        0 <= slot < t.slots.len(),
        t.slots[slot].tex is Some,
    ensures
        0 <= handle_of(t.slots[slot].gen as int, slot) <= i32::MAX,
        resolves(t.slots, handle_of(t.slots[slot].gen as int, slot)) == Some(slot),
{
    lemma_handle_parts(t.slots[slot].gen as int, slot);
}

/// Storing a texture makes it live under the handle given out and changes what
/// no other handle names.
pub proof fn law_store_then_resolve(t: TableModel, tex: TexModel)
    requires
        t.wf(),
    ensures
        t.stored(tex).1 >= 0 <==> t.next_slot() is Some,
        -1 <= t.stored(tex).1 <= i32::MAX,
        t.stored(tex).1 >= 0 ==> t.stored(tex).0.live(t.stored(tex).1) == Some(tex),
        forall|other: int|
            other != t.stored(tex).1 ==> #[trigger] t.stored(tex).0.live(other) == t.live(other),
{
    let after = t.stored(tex).0;
    let handle = t.stored(tex).1;
    match t.next_slot() {
        None => {},
        Some(slot) => {
            let gen = if t.free.len() > 0 {
                t.slots[slot].gen as int
            } else {
                0
            };
            if t.free.len() > 0 {
                assert(t.free[t.free.len() - 1] as int == slot);
            }
            lemma_handle_parts(gen, slot);
            assert forall|other: int| other != handle implies #[trigger] after.live(other)
                == t.live(other) by {
                if other >= 0 && other % slot_space() == slot {
                    assert(other == (other / slot_space()) * slot_space() + slot);
                    assert(gen % gen_space() == gen);
                }
            }
        },
    }
}

/// The handle given out for a texture named nothing before.
pub proof fn lemma_stored_handle_was_free(t: TableModel, tex: TexModel)
    requires
        t.wf(),
        t.stored(tex).1 >= 0,
    ensures
        t.live(t.stored(tex).1) is None,
{
    let slot = t.next_slot()->0;
    if t.free.len() > 0 {
        assert(t.free[t.free.len() - 1] as int == slot);
        lemma_handle_parts(t.slots[slot].gen as int, slot);
    } else {
        lemma_handle_parts(0, slot);
    }
}

/// Releasing a handle makes it stale for good until its slot is reused, and
/// changes what no other handle names.
pub proof fn law_release_makes_stale(t: TableModel, handle: int)
    requires
        t.wf(),
    ensures
        t.released(handle).wf(),
        t.released(handle).live(handle) is None,
        forall|other: int|
            other != handle ==> #[trigger] t.released(handle).live(other) == t.live(other),
{
    let after = t.released(handle);
    match resolves(t.slots, handle) {
        None => {},
        Some(slot) => {
            assert(handle == (handle / slot_space()) * slot_space() + slot);
            assert forall|other: int| other != handle implies #[trigger] after.live(other)
                == t.live(other) by {
                if other >= 0 && other % slot_space() == slot {
                    assert(other == (other / slot_space()) * slot_space() + slot);
                }
            }
            assert(!t.free.contains(slot as u32));
            assert(after.free.no_duplicates());
            assert forall|s: int|
                #![trigger after.slots[s]]
                0 <= s < after.slots.len() && after.slots[s].tex is None implies after.free.contains(
                s as u32,
            ) by {
                if s == slot {
                    assert(after.free[t.free.len() as int] == s as u32);
                } else {
                    assert(t.slots[s].tex is None);
                    let i = choose|i: int| 0 <= i < t.free.len() && t.free[i] == s as u32;
                    assert(after.free[i] == s as u32);
                }
            }
        },
    }
}

/// The slot released last is the one reused first, under a new handle; the
/// released handle stays stale.
pub proof fn law_reuse_is_last_in_first_out(t: TableModel, handle: int, tex: TexModel)
    requires
        t.wf(),
        resolves(t.slots, handle) is Some,
    ensures
        ({
            let slot = resolves(t.slots, handle)->0;
            let again = t.released(handle).stored(tex);
            &&& again.1 == handle_of(t.slots[slot].gen as int + 1, slot)
            &&& again.1 != handle
            &&& again.0.live(handle) is None
            &&& again.0.free == t.free
        }),
{
    let slot = resolves(t.slots, handle)->0;
    let after = t.released(handle);
    law_release_makes_stale(t, handle);
    law_store_then_resolve(after, tex);
    assert(handle == (handle / slot_space()) * slot_space() + slot);
    assert(after.free.last() == slot as u32);
    assert(after.free.drop_last() =~= t.free);
    lemma_handle_parts(t.slots[slot].gen as int + 1, slot);
    lemma_handle_parts(t.slots[slot].gen as int, slot);
}

/// Two generations of one slot share a handle exactly when they are a multiple
/// of the generation space apart.
pub proof fn law_generations_wrap(gen: int, turns: int, slot: int)
    requires
        0 <= gen,
        0 <= turns,
        0 <= slot < slot_space(),
    ensures
        handle_of(gen + turns, slot) == handle_of(gen, slot) <==> turns % gen_space() == 0,
{
}

/// The first texture stored in an empty table gets handle 0.
pub proof fn law_first_handle_is_zero(t: TableModel, tex: TexModel)
    requires
        t.slots.len() == 0,
        t.free.len() == 0,
    ensures
        t.stored(tex).1 == 0,
{
}

proof fn lemma_handle_parts(gen: int, slot: int)
    requires
        0 <= gen,
        0 <= slot < slot_space(),
    ensures
        0 <= handle_of(gen, slot) <= i32::MAX,
        handle_of(gen, slot) / slot_space() == gen % gen_space(),
        handle_of(gen, slot) % slot_space() == slot,
{
}

// ---- asset blobs ------------------------------------------------------------------

/// `bit` is a power of two; it is set in `flags`.
pub open spec fn flag_set(flags: int, bit: int) -> bool {
    (flags / bit) % 2 == 1
}

/// A texture edge: a power of two up to `TEX_MAX_DIM`.
pub open spec fn is_tex_dim(v: u32) -> bool {
    v == 1 || v == 2 || v == 4 || v == 8 || v == 16 || v == 32 || v == 64 || v == 128 || v == 256
        || v == 512
}

/// Bytes per pixel of a format; 0 for a number that is no format.
pub open spec fn bytes_per_pixel(psm: u32) -> int {
    if psm == PSM_5650 || psm == PSM_4444 {
        2
    } else if psm == PSM_8888 {
        4
    } else if psm == PSM_T8 {
        1
    } else {
        0
    }
}

/// The `len` pixel bytes of a stream: all that a run-length coded one stands
/// for, or the first bytes of a plain one.
pub open spec fn stream_pixels(stream: Seq<u8>, len: int, rle: bool) -> Option<Seq<u8>> {
    if rle {
        match unpacked(stream, 0) {
            Some(p) => if p.len() == len {
                Some(p)
            } else {
                None
            },
            None => None,
        }
    } else if stream.len() >= len {
        Some(stream.take(len))
    } else {
        None
    }
}

/// The texture that raw image data stands for; `None` for data to refuse.
pub open spec fn image_texture(data: Seq<u8>, w: u32, h: u32, psm: u32, flags: u8) -> Option<
    TexModel,
> {
    let bpp = bytes_per_pixel(psm);
    let clut = if psm == PSM_T8 {
        TEX_PALETTE_BYTES as int
    } else {
        0
    };
    if bpp == 0 || !is_tex_dim(w) || !is_tex_dim(h) || data.len() < clut {
        None
    } else {
        match stream_pixels(data.skip(clut), w * h * bpp, flag_set(flags as int, IMG_FLAG_RLE as int)) {
            None => None,
            Some(pixels) => Some(
                TexModel {
                    pixels,
                    w,
                    h,
                    psm,
                    palette: if psm == PSM_T8 {
                        Some(data.take(clut))
                    } else {
                        None
                    },
                    linear: flag_set(flags as int, IMG_FLAG_LINEAR as int),
                    revision: 0,
                },
            ),
        }
    }
}

/// The texture that a self-describing image entry stands for: an eight byte
/// header of width, height, format and flags, then the image data.
pub open spec fn img_entry_texture(blob: Seq<u8>) -> Option<TexModel> {
    if blob.len() < 8 {
        None
    } else {
        image_texture(
            blob.skip(8),
            le16(blob, 0) as u32,
            le16(blob, 2) as u32,
            blob[4] as u32,
            blob[5],
        )
    }
}

/// Image data stands for complete textures only.
pub proof fn lemma_image_complete(data: Seq<u8>, w: u32, h: u32, psm: u32, flags: u8)
    ensures
        image_texture(data, w, h, psm, flags) matches Some(t) ==> t.complete(),
{
    assert(0 <= w * h * bytes_per_pixel(psm)) by (nonlinear_arith)
        requires
            0 <= bytes_per_pixel(psm),
    ;
}

/// Reads a pixel stream of `len` bytes.
fn read_stream(stream: &[u8], len: usize, rle: bool) -> (r: Option<Vec<u8>>)
    ensures
        r is Some <==> stream_pixels(stream@, len as int, rle) is Some,
        r is Some ==> r->0@ == stream_pixels(stream@, len as int, rle)->0,
{
    if rle {
        packbits_decode(stream, len)
    } else {
        match window(stream, 0, len) {
            Some(part) => {
                proof {
                    assert(stream@.subrange(0, len as int) =~= stream@.take(len as int));
                }
                Some(to_vec(part))
            },
            None => None,
        }
    }
}

/// Whether `v` is a power of two up to `TEX_MAX_DIM`.
fn tex_dim(v: u32) -> (r: bool)
    ensures
        r == is_tex_dim(v),
{
    v == 1 || v == 2 || v == 4 || v == 8 || v == 16 || v == 32 || v == 64 || v == 128 || v == 256
        || v == TEX_MAX_DIM
}

/// Reads raw image data into a texture; `None` for an unknown format, edges
/// that are no powers of two up to `TEX_MAX_DIM`, and data of the wrong size.
pub fn read_image(data: &[u8], w: u32, h: u32, psm: u32, flags: u8) -> (r: Option<Texture>)
    ensures
        r is Some <==> image_texture(data@, w, h, psm, flags) is Some,
        r is Some ==> r->0@ == image_texture(data@, w, h, psm, flags)->0 && r->0@.complete(),
{
    proof {
        lemma_image_complete(data@, w, h, psm, flags);
    }
    let bpp: usize = if psm == PSM_5650 || psm == PSM_4444 {
        2
    } else if psm == PSM_8888 {
        4
    } else if psm == PSM_T8 {
        1
    } else {
        return None;
    };
    if !tex_dim(w) || !tex_dim(h) {
        return None;
    }
    let clut: usize = if psm == PSM_T8 {
        TEX_PALETTE_BYTES
    } else {
        0
    };
    if data.len() < clut {
        return None;
    }
    proof {
        assert(w * h <= 0x4_0000) by (nonlinear_arith)
            requires
                w <= 512,
                h <= 512,
        ;
        assert(w * h * bpp <= 0x10_0000) by (nonlinear_arith)
            requires
                0 <= w * h <= 0x4_0000,
                bpp <= 4,
        ;
        assert(0 <= w * h) by (nonlinear_arith);
    }
    let palette: Option<Vec<u8>> = if psm == PSM_T8 {
        let head = vstd::slice::slice_subrange(data, 0, clut);
        proof {
            assert(head@ =~= data@.take(clut as int));
        }
        Some(to_vec(head))
    } else {
        None
    };
    let stream = vstd::slice::slice_subrange(data, clut, data.len());
    proof {
        assert(stream@ =~= data@.skip(clut as int));
    }
    let len: usize = w as usize * h as usize * bpp;
    let rle: bool = (flags / IMG_FLAG_RLE) % 2 == 1;
    match read_stream(stream, len, rle) {
        Some(pixels) => {
            let tex = Texture {
                data: pixels,
                w,
                h,
                psm,
                palette,
                linear: (flags / IMG_FLAG_LINEAR) % 2 == 1,
                revision: 0,
            };
            Some(tex)
        },
        None => None,
    }
}

/// Reads an image entry header: width, height, format and flags; `None` when
/// the blob is shorter than the header.
pub fn parse_img_header(blob: &[u8]) -> (r: Option<(u32, u32, u32, u8)>)
    ensures
        r is Some <==> blob@.len() >= 8,
        r is Some ==> r->0 == (
            le16(blob@, 0) as u32,
            le16(blob@, 2) as u32,
            blob@[4] as u32,
            blob@[5],
        ),
{
    if blob.len() < 8 {
        return None;
    }
    match (rd_u16(blob, 0), rd_u16(blob, 2)) {
        (Some(w), Some(h)) => Some((w as u32, h as u32, blob[4] as u32, blob[5])),
        _ => None,
    }
}

/// Reads an image entry into a texture.
pub fn read_img_entry(blob: &[u8]) -> (r: Option<Texture>)
    ensures
        r is Some <==> img_entry_texture(blob@) is Some,
        r is Some ==> r->0@ == img_entry_texture(blob@)->0 && r->0@.complete(),
{
    match parse_img_header(blob) {
        Some((w, h, psm, flags)) => {
            let data = vstd::slice::slice_subrange(blob, 8, blob.len());
            proof {
                assert(data@ =~= blob@.skip(8));
            }
            read_image(data, w, h, psm, flags)
        },
        None => None,
    }
}

/// One pixel-stream tile of a tileset, borrowed from its blob.
pub struct TilesetTile<'a> {
    pub tile_w: u32,
    pub tile_h: u32,
    /// Flags of the whole tileset.
    pub flags: u16,
    /// The shared palette.
    pub palette: &'a [u8],
    /// The pixel stream of this tile.
    pub stream: &'a [u8],
}

/// What a tileset blob holds for tile `index`: the ranges of its palette and
/// of its pixel stream. `None` for a malformed blob, an index past the grid,
/// an absent tile and a tile of one solid colour.
pub open spec fn tile_ranges(blob: Seq<u8>, index: int) -> Option<(int, int, int)> {
    let cols = le16(blob, 12);
    let rows = le16(blob, 14);
    let palette = le32(blob, 16);
    let entry = le32(blob, 20) + index * (TILESET_DIR_ENTRY_SIZE as int);
    let off = le32(blob, entry);
    let len = le32(blob, entry + 4);
    let start = le32(blob, 24) + off;
    if blob.len() < 28 || le32(blob, 0) != TILESET_MAGIC || le16(blob, 4) != TILESET_VERSION {
        None
    } else if index >= cols * rows || entry + 8 > blob.len() {
        None
    } else if off == TILESET_ABSENT || len == 0 {
        None
    } else if palette + TEX_PALETTE_BYTES > blob.len() || start + len > blob.len() {
        None
    } else {
        Some((palette, start, len))
    }
}

/// The texture that tile `index` of a tileset stands for.
pub open spec fn tile_texture(blob: Seq<u8>, index: int) -> Option<TexModel> {
    match tile_ranges(blob, index) {
        None => None,
        Some((palette, start, len)) => {
            let w = le16(blob, 8) as u32;
            let h = le16(blob, 10) as u32;
            let flags = le16(blob, 6);
            match stream_pixels(
                blob.subrange(start, start + len),
                w * h,
                flag_set(flags, TILESET_FLAG_RLE as int),
            ) {
                None => None,
                Some(pixels) => Some(
                    TexModel {
                        pixels,
                        w,
                        h,
                        psm: PSM_T8,
                        palette: Some(blob.subrange(palette, palette + TEX_PALETTE_BYTES)),
                        linear: flag_set(flags, TILESET_FLAG_LINEAR as int),
                        revision: 0,
                    },
                ),
            }
        },
    }
}

/// Tiles are complete textures.
pub proof fn lemma_tile_complete(blob: Seq<u8>, index: int)
    requires
        0 <= index,
    ensures
        tile_texture(blob, index) matches Some(t) ==> t.complete(),
{
    if tile_texture(blob, index) is Some {
        let t = tile_texture(blob, index)->0;
        assert(0 <= t.w * t.h && t.w * t.h * 1 == t.w * t.h) by (nonlinear_arith);
        assert(bytes_per_pixel(t.psm) == 1);
    }
}

/// Finds tile `index` of a tileset blob.
pub fn parse_tileset_tile(blob: &[u8], index: u32) -> (r: Option<TilesetTile<'_>>)
    ensures
        r is Some <==> tile_ranges(blob@, index as int) is Some,
        r is Some ==> ({
            let (palette, start, len) = tile_ranges(blob@, index as int)->0;
            &&& r->0.tile_w == le16(blob@, 8)
            &&& r->0.tile_h == le16(blob@, 10)
            &&& r->0.flags == le16(blob@, 6)
            &&& r->0.palette@ == blob@.subrange(palette, palette + TEX_PALETTE_BYTES)
            &&& r->0.stream@ == blob@.subrange(start, start + len)
        }),
{
    let (magic, version, flags) = match (rd_u32(blob, 0), rd_u16(blob, 4), rd_u16(blob, 6)) {
        (Some(m), Some(v), Some(f)) => (m, v, f),
        _ => return None,
    };
    if magic != TILESET_MAGIC || version != TILESET_VERSION {
        return None;
    }
    let (tile_w, tile_h) = match (rd_u16(blob, 8), rd_u16(blob, 10)) {
        (Some(w), Some(h)) => (w as u32, h as u32),
        _ => return None,
    };
    let (cols, rows) = match (rd_u16(blob, 12), rd_u16(blob, 14)) {
        (Some(c), Some(r)) => (c as u32, r as u32),
        _ => return None,
    };
    let (palette_off, dir_off, data_off) = match (
        rd_u32(blob, 16),
        rd_u32(blob, 20),
        rd_u32(blob, 24),
    ) {
        (Some(p), Some(d), Some(a)) => (p as usize, d as usize, a as usize),
        _ => return None,
    };
    proof {
        assert(0 <= cols * rows <= 0xffff * 0xffff) by (nonlinear_arith)
            requires
                cols <= 0xffff,
                rows <= 0xffff,
        ;
    }
    if index >= cols * rows {
        return None;
    }
    let total: usize = blob.len();
    proof {
        assert(blob@.len() == total <= usize::MAX);
    }
    let step: usize = match (index as usize).checked_mul(TILESET_DIR_ENTRY_SIZE) {
        Some(v) => v,
        None => return None,
    };
    let entry: usize = match dir_off.checked_add(step) {
        Some(v) => v,
        None => return None,
    };
    let off: u32 = match rd_u32(blob, entry) {
        Some(v) => v,
        None => return None,
    };
    let len_at: usize = match entry.checked_add(4) {
        Some(v) => v,
        None => return None,
    };
    let len: usize = match rd_u32(blob, len_at) {
        Some(v) => v as usize,
        None => return None,
    };
    if off == TILESET_ABSENT || len == 0 {
        return None;
    }
    let palette = match window(blob, palette_off, TEX_PALETTE_BYTES) {
        Some(p) => p,
        None => return None,
    };
    let start: usize = match data_off.checked_add(off as usize) {
        Some(v) => v,
        None => return None,
    };
    let stream = match window(blob, start, len) {
        Some(s) => s,
        None => return None,
    };
    Some(TilesetTile { tile_w, tile_h, flags, palette, stream })
}

/// Reads tile `index` of a tileset blob into a texture.
pub fn read_tile(blob: &[u8], index: u32) -> (r: Option<Texture>)
    ensures
        r is Some <==> tile_texture(blob@, index as int) is Some,
        r is Some ==> r->0@ == tile_texture(blob@, index as int)->0 && r->0@.complete(),
{
    proof {
        lemma_tile_complete(blob@, index as int);
    }
    let tile = match parse_tileset_tile(blob, index) {
        Some(t) => t,
        None => return None,
    };
    proof {
        assert(0 <= tile.tile_w * tile.tile_h <= 0xffff * 0xffff) by (nonlinear_arith)
            requires
                tile.tile_w <= 0xffff,
                tile.tile_h <= 0xffff,
        ;
    }
    let len: usize = tile.tile_w as usize * tile.tile_h as usize;
    let rle: bool = (tile.flags / TILESET_FLAG_RLE) % 2 == 1;
    match read_stream(tile.stream, len, rle) {
        Some(pixels) => {
            let tex = Texture {
                data: pixels,
                w: tile.tile_w,
                h: tile.tile_h,
                psm: PSM_T8,
                palette: Some(to_vec(tile.palette)),
                linear: (tile.flags / TILESET_FLAG_LINEAR) % 2 == 1,
                revision: 0,
            };
            Some(tex)
        },
        None => None,
    }
}

/// A texture finds a slot as long as there is one: handles run out only when all
/// slots are live.
pub proof fn law_textures_find_a_slot(t: TableModel, tex: TexModel)
    requires
        t.wf(),
        t.stored(tex).1 < 0,
    ensures
        t.slots.len() == 0x10_0000,
        t.free.len() == 0,
        forall|s: int| 0 <= s < t.slots.len() ==> (#[trigger] t.slots[s]).tex is Some,
{
    law_store_then_resolve(t, tex);
    assert forall|s: int| 0 <= s < t.slots.len() implies (#[trigger] t.slots[s]).tex is Some by {
        if t.slots[s].tex is None {
            assert(t.free.contains(s as u32));
        }
    }
}

/// A handle holds the slot in its low twenty bits and the generation above them,
/// and is never negative.
pub proof fn law_handles_hold_slots(gen: u16, slot: int)
    requires
        0 <= slot < 0x10_0000,
    ensures
        handle_of(gen as int, slot) % 0x10_0000 == slot,
        handle_of(gen as int, slot) / 0x10_0000 == gen as int % 0x800,
        0 <= handle_of(gen as int, slot) <= i32::MAX,
{
}

} // verus!
