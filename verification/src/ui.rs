//! The user interface of one app: its scene, its resources and its clock.
use crate::constants::{
    CORE_TICKS_PER_SECOND, F32_SCREEN_H, F32_SCREEN_W, MAX_FONT_SLOTS, MAX_TICK_HZ, NODE_VIEW,
    PSM_T8, TEX_GEN_MASK, TEX_PALETTE_BYTES,
};
use crate::disc::DiscCache;
use crate::drawlist::DrawList;
use crate::font::Atlas;
use crate::restyle::Rules;
use crate::scene::{blank, LayoutModel, LayoutsModel, Scene, SceneModel};
use crate::style::PropTable;
use crate::surface::{as_column, sized};
use crate::texture::{
    handle_of, image_texture, img_entry_texture, make_tex_handle, read_image, read_tile, resolves,
    slot_models, tex_alloc, tex_resolve, tile_texture, TableModel, TexModel, TexSlot, TexView,
    Texture,
};
use crate::touch::HitTable;
use vstd::prelude::*;

verus! {

// ---- model --------------------------------------------------------------------------------

/// The pointer that is drawn over everything: a texture, or -1 for none, and
/// bit patterns of its hot spot, its size (not above zero for that of the
/// texture) and its position.
#[derive(Clone, Copy)]
pub struct Cursor {
    pub tex: i32,
    pub hot: (u32, u32),
    pub size: (u32, u32),
    pub pos: (u32, u32),
}

/// A rectangle: left, top, width, height.
#[derive(Clone, Copy)]
pub struct IntRect {
    pub x: i32,
    pub y: i32,
    pub w: i32,
    pub h: i32,
}

/// The node that is being inspected, 0 for none; where it was painted; and
/// bit patterns of the frame last drawn around it on either surface.
#[derive(Clone, Copy)]
pub struct Inspector {
    pub id: i32,
    pub rect: Option<IntRect>,
    pub drawn: Option<(u32, u32, u32, u32)>,
    pub aux_drawn: Option<(u32, u32, u32, u32)>,
}

/// All that a user interface is.
#[verifier::ext_equal]
pub struct UiModel {
    pub scene: SceneModel,
    pub rules: Rules,
    pub table: TableModel,
    pub discs: Seq<(u32, i32)>,
    pub fonts: Seq<Option<Atlas>>,
    pub density: u32,
    pub revision: u64,
    pub cursor: Cursor,
    pub frame: u64,
    pub ticked: bool,
    pub paused: bool,
    pub step_pending: bool,
    pub inspector: Inspector,
    pub list: Seq<u32>,
    pub aux_list: Seq<u32>,
    pub touches: Seq<(u32, i32)>,
    pub aux_touches: Seq<(u32, i32)>,
}

/// The next number of a counter that starts over.
pub open spec fn counted(n: u64) -> u64 {
    if n == u64::MAX {
        0
    } else {
        (n + 1) as u64
    }
}

impl UiModel {
    pub open spec fn with_scene(self, scene: SceneModel) -> UiModel {
        UiModel { scene, ..self }
    }

    /// What renderers show has changed.
    pub open spec fn bumped(self) -> UiModel {
        UiModel { revision: counted(self.revision), ..self }
    }

    /// The interface after a texture was stored, and the handle for it; the
    /// same interface and -1 without a texture or when handles run out.
    pub open spec fn with_texture(self, tex: Option<TexModel>) -> (UiModel, int) {
        match tex {
            None => (self, -1),
            Some(t) => {
                let (table, handle) = self.table.stored(t);
                if handle >= 0 {
                    ((UiModel { table, ..self }).bumped(), handle)
                } else {
                    (self, -1)
                }
            },
        }
    }

    /// These bytes can be put in place of those of a texture: it is live, has a
    /// palette, and both sizes fit.
    pub open spec fn can_update(self, handle: int, palette: Seq<u8>, pixels: Seq<u8>) -> bool {
        self.table.live(handle) matches Some(t) && t.psm == PSM_T8 && palette.len()
            == TEX_PALETTE_BYTES && pixels.len() == t.w * t.h
    }

    /// The interface after the bytes of a texture were overwritten.
    pub open spec fn with_update(self, handle: int, palette: Seq<u8>, pixels: Seq<u8>) -> UiModel {
        let slot = resolves(self.table.slots, handle)->0;
        let t = self.table.slots[slot].tex->0;
        let after = crate::texture::SlotModel {
            tex: Some(
                TexModel {
                    pixels,
                    palette: Some(palette),
                    revision: counted(t.revision),
                    ..t
                },
            ),
            ..self.table.slots[slot]
        };
        (UiModel {
            table: TableModel { slots: self.table.slots.update(slot, after), ..self.table },
            ..self
        }).bumped()
    }

    /// The interface after a texture was released.
    pub open spec fn without_texture(self, handle: int) -> UiModel {
        if resolves(self.table.slots, handle) is None {
            self
        } else {
            (UiModel { table: self.table.released(handle), ..self }).bumped()
        }
    }
}

// ---- data -----------------------------------------------------------------------------------

/// The user interface of one app.
pub struct Ui {
    pub scene: Scene,
    pub textures: Vec<TexSlot>,
    /// Slots to use again, the one released last at the end.
    pub tex_free: Vec<u32>,
    pub discs: DiscCache,
    pub fonts: Vec<Option<Atlas>>,
    /// Raster pixels per logical pixel along one axis.
    pub raster_density: u32,
    /// Changes with everything that renderers show.
    pub raster_revision: u64,
    pub cursor: Cursor,
    pub frame: u64,
    /// A frame was begun before.
    pub ticked: bool,
    pub paused: bool,
    pub step_pending: bool,
    pub inspector: Inspector,
    pub draw_list: DrawList,
    pub aux_draw_list: DrawList,
    pub touch_table: HitTable,
    pub aux_touch_table: HitTable,
}

impl View for Ui {
    type V = UiModel;

    open spec fn view(&self) -> UiModel {
        UiModel {
            scene: self.scene@,
            rules: self.scene.rules(),
            table: self.table(),
            discs: self.discs.entries@,
            fonts: self.fonts@,
            density: self.raster_density,
            revision: self.raster_revision,
            cursor: self.cursor,
            frame: self.frame,
            ticked: self.ticked,
            paused: self.paused,
            step_pending: self.step_pending,
            inspector: self.inspector,
            list: self.draw_list.words@,
            aux_list: self.aux_draw_list.words@,
            touches: self.touch_table@,
            aux_touches: self.aux_touch_table@,
        }
    }
}

/// Every font slot is there, and atlases are complete and in their slots.
pub open spec fn fonts_wf(fonts: Seq<Option<Atlas>>) -> bool {
    &&& fonts.len() == MAX_FONT_SLOTS
    &&& forall|i: int|
        #![trigger fonts[i]]
        0 <= i < fonts.len() ==> (fonts[i] matches Some(a) ==> a.wf() && a.slot == i)
}

impl Ui {
    pub open spec fn table(self) -> TableModel {
        TableModel { slots: slot_models(self.textures@), free: self.tex_free@ }
    }

    pub open spec fn wf(self) -> bool {
        &&& self.scene.wf()
        &&& self.table().wf()
        &&& fonts_wf(self.fonts@)
        &&& 1 <= self.raster_density <= 255
        &&& 1 <= self.scene.tick_hz <= MAX_TICK_HZ
    }

    /// An interface with just the root, at one raster pixel per logical pixel.
    pub fn new(props: PropTable) -> (ui: Ui)
        requires
            props.wf(),
        ensures
            ui.wf(),
            ui@.is_new(props, 1),
    {
        Ui::new_with_raster_density(props, 1)
    }

    /// An interface with just the root.
    pub fn new_with_raster_density(props: PropTable, raster_density: u32) -> (ui: Ui)
        requires
            props.wf(),
            1 <= raster_density <= 255,
        ensures
            ui.wf(),
            ui@.is_new(props, raster_density),
    {
        let mut fonts: Vec<Option<Atlas>> = Vec::new();
        let mut i: usize = 0;
        while i < MAX_FONT_SLOTS
            invariant
                i <= MAX_FONT_SLOTS,
                fonts@.len() == i,
                forall|j: int| #![trigger fonts@[j]] 0 <= j < i ==> fonts@[j] is None,
            decreases MAX_FONT_SLOTS - i,
        {
            fonts.push(None);
            i = i + 1;
        }
        let scene = Scene::new(props, (F32_SCREEN_W, F32_SCREEN_H), CORE_TICKS_PER_SECOND);
        Ui {
            scene,
            textures: Vec::new(),
            tex_free: Vec::new(),
            discs: DiscCache::new(),
            fonts,
            raster_density,
            raster_revision: 1,
            cursor: Cursor { tex: -1, hot: (0, 0), size: (0, 0), pos: (0, 0) },
            frame: 0,
            ticked: false,
            paused: false,
            step_pending: false,
            inspector: Inspector { id: 0, rect: None, drawn: None, aux_drawn: None },
            draw_list: DrawList::new(),
            aux_draw_list: DrawList::new(),
            touch_table: HitTable::new(),
            aux_touch_table: HitTable::new(),
        }
    }

    pub fn raster_density(&self) -> (d: u32)
        ensures
            d == self@.density,
    {
        self.raster_density
    }

    /// Sets how many frames make a second. It is refused outside 1 to
    /// `MAX_TICK_HZ`, and once a frame was begun, even one that was paused.
    pub fn set_tick_rate(&mut self, hz: u32) -> (ok: bool)
        requires
            old(self).wf(),
        ensures
            final(self).wf(),
            ok == (1 <= hz <= MAX_TICK_HZ && !old(self)@.ticked),
            final(self)@ == (if ok {
                UiModel { rules: Rules { hz, ..old(self)@.rules }, ..old(self)@ }
            } else {
                old(self)@
            }),
    {
        if hz == 0 || hz > MAX_TICK_HZ || self.ticked {
            return false;
        }
        self.scene.tick_hz = hz;
        true
    }

    pub fn tick_rate(&self) -> (hz: u32)
        ensures
            hz == self@.rules.hz,
    {
        self.scene.tick_hz
    }

    pub fn raster_revision(&self) -> (r: u64)
        ensures
            r == self@.revision,
    {
        self.raster_revision
    }

    fn bump_raster_revision(&mut self)
        ensures
            final(self)@ == old(self)@.bumped(),
            old(self).wf() ==> final(self).wf(),
    {
        self.raster_revision = if self.raster_revision == u64::MAX {
            0
        } else {
            self.raster_revision + 1
        };
    }

    // ---- textures -----------------------------------------------------------------------

    fn store(&mut self, tex: Option<Texture>) -> (handle: i32)
        requires
            old(self).wf(),
            tex matches Some(t) ==> t@.complete(),
        ensures
            final(self).wf(),
            (final(self)@, handle as int) == old(self)@.with_texture(
                match tex {
                    Some(t) => Some(t@),
                    None => None,
                },
            ),
    {
        match tex {
            None => -1,
            Some(t) => {
                let handle: i32 = tex_alloc(&mut self.textures, &mut self.tex_free, t);
                if handle >= 0 {
                    self.bump_raster_revision();
                }
                handle
            },
        }
    }

    /// Stores raw pixels of a format and returns their handle; -1 when they
    /// make no texture or handles run out.
    pub fn upload_texture(&mut self, data: &[u8], w: u32, h: u32, psm: u32) -> (handle: i32)
        requires
            old(self).wf(),
        ensures
            final(self).wf(),
            (final(self)@, handle as int) == old(self)@.with_texture(
                image_texture(data@, w, h, psm, 0),
            ),
    {
        self.upload_texture_flags(data, w, h, psm, 0)
    }

    /// Stores raw or packed pixels of a format.
    pub fn upload_texture_flags(&mut self, data: &[u8], w: u32, h: u32, psm: u32, flags: u8) -> (handle:
        i32)
        requires
            old(self).wf(),
        ensures
            final(self).wf(),
            (final(self)@, handle as int) == old(self)@.with_texture(
                image_texture(data@, w, h, psm, flags),
            ),
    {
        let tex = read_image(data, w, h, psm, flags);
        self.store(tex)
    }

    /// Stores an image entry: a header and the pixels.
    pub fn upload_img_entry(&mut self, blob: &[u8]) -> (handle: i32)
        requires
            old(self).wf(),
        ensures
            final(self).wf(),
            (final(self)@, handle as int) == old(self)@.with_texture(img_entry_texture(blob@)),
    {
        let tex = crate::texture::read_img_entry(blob);
        self.store(tex)
    }

    /// Stores one tile of a tileset entry.
    pub fn upload_tileset_tile(&mut self, blob: &[u8], index: u32) -> (handle: i32)
        requires
            old(self).wf(),
        ensures
            final(self).wf(),
            (final(self)@, handle as int) == old(self)@.with_texture(
                tile_texture(blob@, index as int),
            ),
    {
        let tex = read_tile(blob, index);
        self.store(tex)
    }

    /// Overwrites palette and pixels of a live texture with a palette, under
    /// the same handle. Nothing changes when the sizes do not fit.
    pub fn update_texture_t8(&mut self, handle: i32, palette: &[u8], pixels: &[u8]) -> (ok: bool)
        requires
            old(self).wf(),
        ensures
            final(self).wf(),
            ok == old(self)@.can_update(handle as int, palette@, pixels@),
            final(self)@ == (if ok {
                old(self)@.with_update(handle as int, palette@, pixels@)
            } else {
                old(self)@
            }),
    {
        let ghost m = self@;
        let slot: usize = match tex_resolve(self.textures.as_slice(), handle) {
            Some(s) => s as usize,
            None => return false,
        };
        proof {
            assert(m.table.slots[slot as int] == self.textures@[slot as int]@);
        }
        let (w, h, linear, rev): (u32, u32, bool, u64) = match &self.textures[slot].tex {
            Some(t) => {
                if t.psm != PSM_T8 || t.palette.is_none() || palette.len() != TEX_PALETTE_BYTES
                    || pixels.len() != t.data.len() {
                    return false;
                }
                (t.w, t.h, t.linear, t.revision)
            },
            None => return false,
        };
        let revision: u64 = if rev == u64::MAX {
            0
        } else {
            rev + 1
        };
        let gen: u16 = self.textures[slot].gen;
        let tex = Texture {
            data: crate::bytes::to_vec(pixels),
            w,
            h,
            psm: PSM_T8,
            palette: Some(crate::bytes::to_vec(palette)),
            linear,
            revision,
        };
        self.textures.set(slot, TexSlot { gen, tex: Some(tex) });
        proof {
            let want = m.with_update(handle as int, palette@, pixels@);
            assert(self@.table.slots =~= want.table.slots);
            let (a, b) = (m.table, self@.table);
            assert forall|s: int|
                #![trigger b.slots[s]]
                0 <= s < b.slots.len() implies (b.slots[s].gen as int) < crate::texture::gen_space()
                && (b.slots[s].tex is None ==> b.free.contains(s as u32)) by {
                assert(a.slots[s].gen == b.slots[s].gen);
            }
            assert(b.wf());
        }
        self.bump_raster_revision();
        true
    }

    /// Releases a texture: its handle goes stale. Stale handles change
    /// nothing.
    pub fn free_texture(&mut self, handle: i32)
        requires
            old(self).wf(),
        ensures
            final(self).wf(),
            final(self)@ == old(self)@.without_texture(handle as int),
    {
        let ghost m = self@;
        let slot: u32 = match tex_resolve(self.textures.as_slice(), handle) {
            Some(s) => s,
            None => return,
        };
        let old_gen: u16 = self.textures[slot as usize].gen;
        proof {
            assert(m.table.slots[slot as int] == self.textures@[slot as int]@);
            assert((m.table.slots[slot as int].gen as int) < crate::texture::gen_space());
        }
        let gen: u16 = ((old_gen as u32 + 1) % (TEX_GEN_MASK + 1)) as u16;
        self.textures.set(slot as usize, TexSlot { gen, tex: None });
        self.tex_free.push(slot);
        proof {
            crate::texture::law_release_makes_stale(m.table, handle as int);
            assert(self@.table.slots =~= m.table.released(handle as int).slots);
            assert(self@.table =~= m.table.released(handle as int));
        }
        self.bump_raster_revision();
    }

    /// A live texture.
    pub fn texture(&self, handle: i32) -> (r: Option<TexView<'_>>)
        requires
            self.wf(),
        ensures
            r is Some <==> self@.table.live(handle as int) is Some,
            r matches Some(v) ==> v.shows(self@.table.live(handle as int)->0),
    {
        match tex_resolve(self.textures.as_slice(), handle) {
            Some(slot) => {
                proof {
                    assert(self@.table.slots[slot as int] == self.textures@[slot as int]@);
                }
                match &self.textures[slot as usize].tex {
                    Some(t) => Some(t.as_view()),
                    None => None,
                }
            },
            None => None,
        }
    }

    /// How often the bytes of a live texture were overwritten.
    pub fn texture_revision(&self, handle: i32) -> (r: Option<u64>)
        requires
            self.wf(),
        ensures
            r == (match self@.table.live(handle as int) {
                Some(t) => Some(t.revision),
                None => None,
            }),
    {
        match tex_resolve(self.textures.as_slice(), handle) {
            Some(slot) => {
                proof {
                    assert(self@.table.slots[slot as int] == self.textures@[slot as int]@);
                }
                match &self.textures[slot as usize].tex {
                    Some(t) => Some(t.revision),
                    None => None,
                }
            },
            None => None,
        }
    }

    /// Number of texture slots ever used.
    pub fn texture_slot_count(&self) -> (n: usize)
        ensures
            n == self@.table.slots.len(),
    {
        self.textures.len()
    }

    /// The live texture in a slot, with its handle.
    pub fn texture_at(&self, slot: u32) -> (r: Option<(i32, TexView<'_>)>)
        requires
            self.wf(),
        ensures
            r is Some <==> slot < self@.table.slots.len() && self@.table.slots[slot as int].tex is Some,
            r matches Some((handle, v)) ==> handle == handle_of(
                self@.table.slots[slot as int].gen as int,
                slot as int,
            ) && v.shows(self@.table.slots[slot as int].tex->0),
    {
        match self.texture_at_versioned(slot) {
            Some((handle, _revision, v)) => Some((handle, v)),
            None => None,
        }
    }

    /// The live texture in a slot, with its handle and how often its bytes
    /// were overwritten.
    pub fn texture_at_versioned(&self, slot: u32) -> (r: Option<(i32, u64, TexView<'_>)>)
        requires
            self.wf(),
        ensures
            r is Some <==> slot < self@.table.slots.len() && self@.table.slots[slot as int].tex is Some,
            r matches Some((handle, revision, v)) ==> handle == handle_of(
                self@.table.slots[slot as int].gen as int,
                slot as int,
            ) && v.shows(self@.table.slots[slot as int].tex->0) && revision
                == self@.table.slots[slot as int].tex->0.revision,
    {
        if slot as usize >= self.textures.len() {
            return None;
        }
        let s = &self.textures[slot as usize];
        proof {
            assert(self@.table.slots[slot as int] == self.textures@[slot as int]@);
        }
        match &s.tex {
            Some(t) => Some((make_tex_handle(s.gen, slot), t.revision, t.as_view())),
            None => None,
        }
    }

    /// The atlas in a font slot.
    pub fn font_atlas(&self, slot: u8) -> (r: Option<&Atlas>)
        requires
            self.wf(),
        ensures
            r is Some <==> slot < MAX_FONT_SLOTS && self@.fonts[slot as int] is Some,
            r matches Some(a) ==> *a == self@.fonts[slot as int]->0,
    {
        if slot as usize >= MAX_FONT_SLOTS {
            return None;
        }
        match &self.fonts[slot as usize] {
            Some(a) => Some(a),
            None => None,
        }
    }
}

impl UiModel {
    /// A new interface: a root that fills the screen as a column, and nothing
    /// else.
    pub open spec fn is_new(self, props: PropTable, density: u32) -> bool {
        let screen = (F32_SCREEN_W, F32_SCREEN_H);
        &&& self.scene.tree.links.len() == 2
        &&& self.scene.tree.links[1].children.len() == 0
        &&& self.scene.tree.free.len() == 0
        &&& self.scene.nodes =~= seq![
            blank(NODE_VIEW),
            as_column(sized(blank(NODE_VIEW), props, screen), props),
        ]
        &&& self.scene.tracks.len() == 1
        &&& self.scene.timelines.len() == 0
        &&& self.scene.layouts == (LayoutsModel {
            main: LayoutModel { dirty: true, restyle: Set::empty(), viewport: screen },
            aux: None,
        })
        &&& self.scene.focused == 0
        &&& self.rules.props == props
        &&& self.rules.hz == CORE_TICKS_PER_SECOND
        &&& self.rules.styles.records@.len() == 0
        &&& self.rules.styles.anims@.len() == 0
        &&& forall|p: int| 0 <= p < 256 ==> #[trigger] self.rules.styles.defaults@[p] == 0
        &&& self.table.slots.len() == 0
        &&& self.table.free.len() == 0
        &&& self.discs.len() == 0
        &&& self.fonts.len() == MAX_FONT_SLOTS
        &&& forall|i: int| 0 <= i < self.fonts.len() ==> #[trigger] self.fonts[i] is None
        &&& self.density == density
        &&& self.revision == 1
        &&& self.cursor == (Cursor { tex: (-1) as i32, hot: (0, 0), size: (0, 0), pos: (0, 0) })
        &&& self.frame == 0
        &&& !self.ticked
        &&& !self.paused
        &&& !self.step_pending
        &&& self.inspector == (Inspector { id: 0, rect: None, drawn: None, aux_drawn: None })
        &&& self.list.len() == 0
        &&& self.aux_list.len() == 0
        &&& self.touches.len() == 0
        &&& self.aux_touches.len() == 0
    }
}

// ---- laws -------------------------------------------------------------------------------------

/// The revision tells renderers of every change of the textures: an operation
/// that leaves it as it is has changed none of them.
pub proof fn law_revision_tells_of_textures(
    m: UiModel,
    tex: Option<TexModel>,
    handle: int,
    palette: Seq<u8>,
    pixels: Seq<u8>,
)
    ensures
        m.with_texture(tex).0.revision == m.revision ==> m.with_texture(tex).0 == m,
        m.without_texture(handle).revision == m.revision ==> m.without_texture(handle) == m,
        m.with_update(handle, palette, pixels).revision != m.revision,
{
}

/// Overwriting a texture keeps its handle, its size and its format, and changes
/// no other texture; its own revision tells of it.
pub proof fn law_update_stays_in_place(
    m: UiModel,
    handle: int,
    palette: Seq<u8>,
    pixels: Seq<u8>,
    other: int,
)
    requires
        m.can_update(handle, palette, pixels),
    ensures
        ({
            let after = m.with_update(handle, palette, pixels).table;
            let (was, now) = (m.table.live(handle)->0, after.live(handle)->0);
            &&& after.live(handle) is Some
            &&& now.pixels == pixels && now.palette == Some(palette)
            &&& (now.w, now.h, now.psm, now.linear) == (was.w, was.h, was.psm, was.linear)
            &&& now.revision != was.revision
            &&& resolves(m.table.slots, other) != resolves(m.table.slots, handle) ==> after.live(
                other,
            ) == m.table.live(other)
        }),
{
}

/// A texture can be updated in place if it is live and of one byte a texel, by a
/// palette of 256 colours of four bytes and one byte for each of its texels.
pub proof fn law_when_textures_are_updated(m: UiModel, handle: int, palette: Seq<u8>, pixels: Seq<u8>)
    ensures
        m.can_update(handle, palette, pixels) <==> m.table.live(handle) is Some && m.table.live(
            handle,
        )->0.psm == 5 && palette.len() == 4 * 256 && pixels.len() == m.table.live(handle)->0.w
            * m.table.live(handle)->0.h,
{
}

/// A new interface: a root of the screen's 480 by 272 pixels that stacks its
/// children, sixty frames a second, and nothing on it or played.
pub proof fn law_new_interface(m: UiModel, props: PropTable, density: u32)
    requires
        m.is_new(props, density),
        props.width != props.height,
        props.flex_dir != props.width,
        props.flex_dir != props.height,
    ensures
        m.scene.layouts.main.viewport == (0x43f0_0000u32, 0x4388_0000u32),
        m.scene.layouts.main.dirty,
        m.scene.layouts.aux is None,
        m.scene.nodes[1].overrides[props.width as int] == Some(0x43f0_0000u32),
        m.scene.nodes[1].overrides[props.height as int] == Some(0x4388_0000u32),
        m.scene.nodes[1].overrides[props.flex_dir as int] == Some(props.flex_col),
        m.scene.nodes[1].kind == 0,
        m.scene.nodes[1].style_id == -1,
        m.scene.tree.links[1].children.len() == 0,
        m.rules.hz == 60,
        m.rules.props == props,
        m.density == density,
        m.frame == 0,
        m.revision == 1,
        !m.paused && !m.step_pending && !m.ticked,
        m.cursor.tex == -1,
        m.inspector.id == 0,
        m.fonts.len() == 16,
        m.table.slots.len() == 0,
        m.list.len() == 0 && m.aux_list.len() == 0,
{
}

} // verus!
