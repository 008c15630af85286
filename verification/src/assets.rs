//! Installing a group of assets: all of them or none.
//!
//! Everything is read into a staging area first. The user interface changes
//! only once all inputs turned out to be good and there is room for the
//! textures.
use crate::bytes::{le16, rd_u16};
use crate::constants::{MAX_FONT_SLOTS, TEX_SLOT_MASK};
use crate::font::Atlas;
use crate::restyle::Rules;
use crate::scene::{LayoutsModel, SceneModel};
use crate::style::StyleTable;
use crate::texture::{
    image_texture, img_entry_texture, law_store_then_resolve, lemma_image_complete,
    lemma_stored_handle_was_free, lemma_stored_wf, read_image, read_img_entry, slot_space,
    tex_alloc, TableModel, TexModel, Texture,
};
use crate::ui::{fonts_wf, Ui, UiModel};
use vstd::prelude::*;

verus! {

/// What an asset is.
#[derive(Clone, Copy)]
pub enum AssetKind {
    Styles,
    Font,
    Image,
    Sprite,
}

/// An asset as it comes from a package.
pub struct AssetInput<'a> {
    pub kind: AssetKind,
    pub bytes: &'a [u8],
}

/// Why assets were not installed.
#[derive(Debug, PartialEq, Eq, Structural)]
pub enum AssetError {
    Invalid,
    NoMemory,
}

/// What the readers of style tables and font atlases made of the bytes of an
/// asset: nothing for other assets and for bytes that they refuse.
pub enum Parsed {
    Nothing,
    Styles(StyleTable),
    Font(Atlas),
}

/// A reader made this of these bytes.
pub open spec fn reads_as(bytes: Seq<u8>, p: Parsed) -> bool {
    match p {
        Parsed::Nothing => true,
        Parsed::Styles(t) => t.wf(),
        Parsed::Font(a) => a.wf() && bytes.len() > 12 && a.slot == bytes[12],
    }
}

// ---- reading --------------------------------------------------------------------------------

/// The grid of a sprite fits its sheet: cells are there, take time, and divide
/// the sheet evenly.
pub open spec fn grid_fits(w: int, h: int, frames: int, cols: int, step: int) -> bool {
    frames != 0 && cols != 0 && step != 0 && w % cols == 0 && h % ((frames + cols - 1) / cols) == 0
}

/// The texture of a sprite entry: a header of sixteen bytes with size, format,
/// number of cells, columns and frames per cell, then the pixels.
pub open spec fn sprite_texture(b: Seq<u8>) -> Option<TexModel> {
    if b.len() < 16 || b[5] != 0 || !grid_fits(
        le16(b, 0),
        le16(b, 2),
        le16(b, 6),
        le16(b, 8),
        le16(b, 10),
    ) {
        None
    } else {
        image_texture(b.skip(16), le16(b, 0) as u32, le16(b, 2) as u32, b[4] as u32, 0)
    }
}

fn read_sprite(b: &[u8]) -> (r: Option<Texture>)
    ensures
        r is Some <==> sprite_texture(b@) is Some,
        r is Some ==> r->0@ == sprite_texture(b@)->0 && r->0@.complete(),
{
    if b.len() < 16 || b[5] != 0 {
        return None;
    }
    let (w, h, frames, cols, step): (u16, u16, u16, u16, u16) = match (
        rd_u16(b, 0),
        rd_u16(b, 2),
        rd_u16(b, 6),
        rd_u16(b, 8),
        rd_u16(b, 10),
    ) {
        (Some(w), Some(h), Some(f), Some(c), Some(s)) => (w, h, f, c, s),
        _ => return None,
    };
    if frames == 0 || cols == 0 || step == 0 || w % cols != 0 {
        return None;
    }
    let rows: u32 = (frames as u32 + cols as u32 - 1) / cols as u32;
    proof {
        assert(rows >= 1) by (nonlinear_arith)
            requires
                rows == (frames as u32 + cols as u32 - 1) / cols as int,
                frames >= 1,
                cols >= 1,
        ;
    }
    if h as u32 % rows != 0 {
        return None;
    }
    let data = vstd::slice::slice_subrange(b, 16, b.len());
    proof {
        assert(data@ =~= b@.skip(16));
    }
    read_image(data, w as u32, h as u32, b[4] as u32, 0)
}

/// What was read.
#[verifier::ext_equal]
pub struct StagedModel {
    pub styles: Option<StyleTable>,
    pub fonts: Seq<Option<Atlas>>,
    pub textures: Seq<TexModel>,
    /// For each input the number of its texture, -1 for none.
    pub spots: Seq<int>,
}

/// Nothing was read yet.
pub open spec fn nothing_staged() -> StagedModel {
    StagedModel {
        styles: None,
        fonts: Seq::new(MAX_FONT_SLOTS as nat, |i: int| None),
        textures: Seq::empty(),
        spots: Seq::empty(),
    }
}

impl StagedModel {
    /// With one more texture; `None` without it, and when no handle would be
    /// left for it.
    pub open spec fn with_texture(self, tex: Option<TexModel>) -> Option<StagedModel> {
        match tex {
            Some(t) if self.textures.len() < slot_space() => Some(
                StagedModel {
                    textures: self.textures.push(t),
                    spots: self.spots.push(self.textures.len() as int),
                    ..self
                },
            ),
            _ => None,
        }
    }

    /// With one more asset; `None` if it is not good: there can be one style
    /// table and one font for each slot.
    pub open spec fn with_asset(self, kind: AssetKind, b: Seq<u8>, p: Parsed) -> Option<StagedModel> {
        match kind {
            AssetKind::Styles => match p {
                Parsed::Styles(t) if self.styles is None => Some(
                    StagedModel { styles: Some(t), spots: self.spots.push(-1), ..self },
                ),
                _ => None,
            },
            AssetKind::Font => match p {
                Parsed::Font(a) if b.len() > 12 && b[12] < MAX_FONT_SLOTS && self.fonts[b[12] as int] is None => Some(
                    StagedModel {
                        fonts: self.fonts.update(b[12] as int, Some(a)),
                        spots: self.spots.push(-1),
                        ..self
                    },
                ),
                _ => None,
            },
            AssetKind::Image => self.with_texture(img_entry_texture(b)),
            AssetKind::Sprite => self.with_texture(sprite_texture(b)),
        }
    }
}

/// The first `n` assets as they were read; `None` if one of them is not good.
pub open spec fn staged(inputs: Seq<AssetInput<'_>>, parsed: Seq<Parsed>, n: int) -> Option<
    StagedModel,
>
    decreases n,
{
    if n <= 0 {
        Some(nothing_staged())
    } else {
        match staged(inputs, parsed, n - 1) {
            Some(st) => st.with_asset(inputs[n - 1].kind, inputs[n - 1].bytes@, parsed[n - 1]),
            None => None,
        }
    }
}

/// Assets that were read and are good.
pub struct Staged {
    pub styles: Option<StyleTable>,
    pub fonts: Vec<Option<Atlas>>,
    pub textures: Vec<Texture>,
    /// For each input the number of its texture, -1 for none.
    pub spots: Vec<i32>,
}

pub open spec fn tex_models(textures: Seq<Texture>) -> Seq<TexModel> {
    Seq::new(textures.len(), |i: int| textures[i]@)
}

/// All textures are complete.
pub open spec fn all_complete(textures: Seq<TexModel>) -> bool {
    forall|i: int| #![trigger textures[i]] 0 <= i < textures.len() ==> textures[i].complete()
}

impl View for Staged {
    type V = StagedModel;

    open spec fn view(&self) -> StagedModel {
        StagedModel {
            styles: self.styles,
            fonts: self.fonts@,
            textures: tex_models(self.textures@),
            spots: Seq::new(self.spots@.len(), |i: int| self.spots@[i] as int),
        }
    }
}

impl Staged {
    pub open spec fn wf(self) -> bool {
        &&& fonts_wf(self.fonts@)
        &&& self.styles matches Some(t) ==> t.wf()
        &&& self.textures@.len() <= slot_space()
        &&& all_complete(tex_models(self.textures@))
        &&& forall|i: int|
            #![trigger self.spots@[i]]
            0 <= i < self.spots@.len() ==> -1 <= self.spots@[i] < self.textures@.len()
    }

    /// Nothing was read yet.
    pub fn new() -> (s: Staged)
        ensures
            s.wf(),
            s@ == nothing_staged(),
    {
        let mut fonts: Vec<Option<Atlas>> = Vec::new();
        let mut i: usize = 0;
        while i < MAX_FONT_SLOTS
            invariant
                i <= MAX_FONT_SLOTS,
                fonts@.len() == i,
                forall|j: int| #![trigger fonts@[j]] 0 <= j < i ==> fonts@[j] is None,
            decreases MAX_FONT_SLOTS - i,
        {
            fonts.push(None);
            i = i + 1;
        }
        let s = Staged { styles: None, fonts, textures: Vec::new(), spots: Vec::new() };
        proof {
            assert(s@ =~= nothing_staged());
        }
        s
    }

    fn add_texture(&mut self, tex: Option<Texture>) -> (ok: bool)
        requires
            old(self).wf(),
            tex matches Some(t) ==> t@.complete(),
        ensures
            ({
                let want = old(self)@.with_texture(
                    match tex {
                        Some(t) => Some(t@),
                        None => None,
                    },
                );
                ok == want is Some && (ok ==> final(self).wf() && final(self)@ == want->0)
            }),
    {
        let ghost before = self@;
        match tex {
            None => false,
            Some(t) => {
                let n: usize = self.textures.len();
                if n > TEX_SLOT_MASK as usize {
                    return false;
                }
                let ghost model = t@;
                self.spots.push(n as i32);
                self.textures.push(t);
                proof {
                    let want = before.with_texture(Some(model))->0;
                    assert(self@.textures =~= want.textures);
                    assert(self@.spots =~= want.spots);
                    assert(self@ =~= want);
                    assert forall|i: int|
                        #![trigger tex_models(self.textures@)[i]]
                        0 <= i < self.textures@.len() implies tex_models(
                        self.textures@,
                    )[i].complete() by {
                        if i < n {
                            assert(before.textures[i].complete());
                        }
                    }
                }
                true
            },
        }
    }

    /// Reads one more asset; `false` if it is not good.
    pub fn add_asset(&mut self, input: &AssetInput<'_>, parsed: Parsed) -> (ok: bool)
        requires
            old(self).wf(),
            reads_as(input.bytes@, parsed),
        ensures
            ({
                let want = old(self)@.with_asset(input.kind, input.bytes@, parsed);
                ok == want is Some && (ok ==> final(self).wf() && final(self)@ == want->0)
            }),
    {
        let ghost before = self@;
        let b = input.bytes;
        match input.kind {
            AssetKind::Styles => match parsed {
                Parsed::Styles(t) => {
                    if self.styles.is_some() {
                        return false;
                    }
                    self.styles = Some(t);
                    self.spots.push(-1);
                    proof {
                        let want = before.with_asset(input.kind, input.bytes@, parsed)->0;
                        assert(self@.spots =~= want.spots);
                        assert(self@ =~= want);
                    }
                    true
                },
                _ => false,
            },
            AssetKind::Font => match parsed {
                Parsed::Font(a) => {
                    if b.len() <= 12 {
                        return false;
                    }
                    let slot: usize = b[12] as usize;
                    if slot >= MAX_FONT_SLOTS || self.fonts[slot].is_some() {
                        return false;
                    }
                    self.fonts.set(slot, Some(a));
                    self.spots.push(-1);
                    proof {
                        let want = before.with_asset(input.kind, input.bytes@, parsed)->0;
                        assert(self@.spots =~= want.spots);
                        assert(self@ =~= want);
                    }
                    true
                },
                _ => false,
            },
            AssetKind::Image => {
                let tex = read_img_entry(b);
                self.add_texture(tex)
            },
            AssetKind::Sprite => {
                let tex = read_sprite(b);
                self.add_texture(tex)
            },
        }
    }
}

// ---- installing -----------------------------------------------------------------------------

/// The table after the first `n` textures were stored.
pub open spec fn stored_all(table: TableModel, textures: Seq<TexModel>, n: int) -> TableModel
    decreases n,
{
    if n <= 0 {
        table
    } else {
        stored_all(table, textures, n - 1).stored(textures[n - 1]).0
    }
}

/// The handle that texture `i` gets.
pub open spec fn stored_handle(table: TableModel, textures: Seq<TexModel>, i: int) -> int {
    stored_all(table, textures, i).stored(textures[i]).1
}

/// Slots that so many more textures add to the table.
pub open spec fn added_slots(table: TableModel, more: int) -> int {
    if more > table.free.len() {
        more - table.free.len()
    } else {
        0
    }
}

/// There are handles for so many more textures.
pub open spec fn has_room(table: TableModel, more: int) -> bool {
    table.slots.len() + added_slots(table, more) <= slot_space()
}

impl UiModel {
    /// The interface after staged assets were installed.
    pub open spec fn installed(self, st: StagedModel) -> UiModel {
        (UiModel {
            scene: SceneModel {
                layouts: LayoutsModel {
                    main: self.scene.layouts.main.dirtied(),
                    ..self.scene.layouts
                },
                ..self.scene
            },
            rules: match st.styles {
                Some(styles) => Rules { styles, ..self.rules },
                None => self.rules,
            },
            fonts: Seq::new(
                MAX_FONT_SLOTS as nat,
                |i: int|
                    if st.fonts[i] is Some {
                        st.fonts[i]
                    } else {
                        self.fonts[i]
                    },
            ),
            table: stored_all(self.table, st.textures, st.textures.len() as int),
            ..self
        }).bumped()
    }

    /// The handles that the inputs get; -1 for those that are no texture.
    pub open spec fn handles_for(self, st: StagedModel) -> Seq<i32> {
        Seq::new(
            st.spots.len(),
            |i: int|
                if st.spots[i] >= 0 {
                    stored_handle(self.table, st.textures, st.spots[i]) as i32
                } else {
                    (-1) as i32
                },
        )
    }
}

proof fn lemma_stored_all(table: TableModel, textures: Seq<TexModel>, n: int)
    requires
        table.wf(),
        all_complete(textures),
        0 <= n <= textures.len(),
        has_room(table, textures.len() as int),
    ensures
        stored_all(table, textures, n).wf(),
        n <= table.free.len() ==> stored_all(table, textures, n).free.len() == table.free.len() - n
            && stored_all(table, textures, n).slots.len() == table.slots.len(),
        n > table.free.len() ==> stored_all(table, textures, n).free.len() == 0 && stored_all(
            table,
            textures,
            n,
        ).slots.len() == table.slots.len() + n - table.free.len(),
        n < textures.len() ==> 0 <= stored_handle(table, textures, n) <= i32::MAX,
    decreases n,
{
    if n > 0 {
        lemma_stored_all(table, textures, n - 1);
        lemma_stored_wf(stored_all(table, textures, n - 1), textures[n - 1]);
    }
    if n < textures.len() {
        let t = stored_all(table, textures, n);
        assert(t.next_slot() is Some);
        if t.free.len() > 0 {
            assert((t.free[t.free.len() - 1] as int) < t.slots.len());
            assert((t.slots[t.free.last() as int].gen as int) < crate::texture::gen_space());
        }
    }
}

impl Ui {
    /// Installs staged assets for whose textures there are handles and, if
    /// `reserved`, memory, and returns the handles of the inputs.
    pub fn install(&mut self, staged: Staged, reserved: bool) -> (r: Result<Vec<i32>, AssetError>)
        requires
            old(self).wf(),
            staged.wf(),
        ensures
            final(self).wf(),
            ({
                let fits = has_room(old(self)@.table, staged@.textures.len() as int);
                &&& r is Ok <==> fits && reserved
                &&& r matches Err(e) ==> e == AssetError::NoMemory && final(self)@ == old(self)@
                &&& r matches Ok(handles) ==> final(self)@ == old(self)@.installed(staged@)
                    && handles@ == old(self)@.handles_for(staged@)
            }),
    {
        if !reserved || !self.room_for(staged.textures.len()) {
            return Err(AssetError::NoMemory);
        }
        let ghost m = self@;
        let ghost st = staged@;
        let Staged { styles, mut fonts, mut textures, spots } = staged;
        match styles {
            Some(t) => {
                self.scene.styles = t;
            },
            None => {},
        }
        let mut i: usize = 0;
        let ghost old_fonts = self.fonts@;
        proof {
            assert(fonts@.skip(0) =~= fonts@);
        }
        while i < MAX_FONT_SLOTS
            invariant
                i <= MAX_FONT_SLOTS,
                fonts_wf(old_fonts),
                fonts_wf(st.fonts),
                fonts@ == st.fonts.skip(i as int),
                self.fonts@.len() == MAX_FONT_SLOTS,
                forall|j: int|
                    #![trigger self.fonts@[j]]
                    0 <= j < MAX_FONT_SLOTS ==> self.fonts@[j] == (if j < i && st.fonts[j] is Some {
                        st.fonts[j]
                    } else {
                        old_fonts[j]
                    }),
                self@ == (UiModel {
                    fonts: self.fonts@,
                    rules: match st.styles {
                        Some(styles) => Rules { styles, ..old(self)@.rules },
                        None => old(self)@.rules,
                    },
                    ..old(self)@
                }),
                self.scene.wf(),
                self.table().wf(),
                1 <= self.raster_density <= 255,
                1 <= self.scene.tick_hz <= crate::constants::MAX_TICK_HZ,
            decreases MAX_FONT_SLOTS - i,
        {
            let a = fonts.remove(0);
            if a.is_some() {
                self.fonts.set(i, a);
            }
            proof {
                assert(fonts@ =~= st.fonts.skip(i + 1));
            }
            i = i + 1;
        }
        let ghost mid = self@;
        let mut given: Vec<i32> = Vec::new();
        let n: usize = textures.len();
        let mut k: usize = 0;
        proof {
            assert(tex_models(textures@) =~= st.textures.skip(0));
        }
        while k < n
            invariant
                k <= n,
                n == st.textures.len(),
                mid.table == m.table,
                m.table.wf(),
                all_complete(st.textures),
                has_room(m.table, n as int),
                tex_models(textures@) == st.textures.skip(k as int),
                self.fonts@ == mid.fonts,
                fonts_wf(self.fonts@),
                self.table() == stored_all(m.table, st.textures, k as int),
                self@ == (UiModel { table: self.table(), ..mid }),
                given@.len() == k,
                forall|j: int|
                    #![trigger given@[j]]
                    0 <= j < k ==> given@[j] == stored_handle(m.table, st.textures, j),
                self.scene.wf(),
                self.table().wf(),
                1 <= self.raster_density <= 255,
                1 <= self.scene.tick_hz <= crate::constants::MAX_TICK_HZ,
            decreases n - k,
        {
            proof {
                assert(tex_models(textures@).len() == n - k);
                assert(tex_models(textures@)[0] == st.textures[k as int]);
                lemma_stored_all(m.table, st.textures, k as int);
            }
            let ghost before = textures@;
            let t = textures.remove(0);
            let handle: i32 = tex_alloc(&mut self.textures, &mut self.tex_free, t);
            given.push(handle);
            proof {
                let rest = st.textures.skip(k + 1);
                assert(textures@.len() == rest.len());
                assert forall|x: int| 0 <= x < rest.len() implies #[trigger] tex_models(textures@)[x]
                    == rest[x] by {
                    assert(textures@[x] == before[x + 1]);
                    assert(tex_models(before)[x + 1] == st.textures.skip(k as int)[x + 1]);
                }
                assert(tex_models(textures@) =~= rest);
            }
            k = k + 1;
        }
        let mut handles: Vec<i32> = Vec::new();
        let mut j: usize = 0;
        while j < spots.len()
            invariant
                j <= spots@.len(),
                n == st.textures.len(),
                given@.len() == n,
                st.spots.len() == spots@.len(),
                forall|x: int|
                    #![trigger spots@[x]]
                    0 <= x < spots@.len() ==> -1 <= spots@[x] < n && st.spots[x] == spots@[x],
                forall|x: int|
                    #![trigger given@[x]]
                    0 <= x < n ==> given@[x] == stored_handle(m.table, st.textures, x),
                handles@ =~= m.handles_for(st).take(j as int),
            decreases spots@.len() - j,
        {
            let at: i32 = spots[j];
            if at >= 0 {
                handles.push(given[at as usize]);
            } else {
                handles.push(-1);
            }
            j = j + 1;
        }
        proof {
            assert(handles@ =~= m.handles_for(st));
        }
        self.scene.layouts.main.dirty = true;
        self.raster_revision = if self.raster_revision == u64::MAX {
            0
        } else {
            self.raster_revision + 1
        };
        proof {
            let want = m.installed(st);
            assert(self@.fonts =~= want.fonts);
            assert(self@.scene.layouts =~= want.scene.layouts);
            assert(self@ =~= want);
        }
        Ok(handles)
    }

    /// How many slots have to be added to the table for so many textures: those
    /// that the released slots do not take.
    fn slots_needed(&self, more: usize) -> (k: usize)
        ensures
            k == added_slots(self@.table, more as int),
    {
        let free: usize = self.tex_free.len();
        if more > free {
            more - free
        } else {
            0
        }
    }

    fn room_for(&self, more: usize) -> (b: bool)
        requires
            self.wf(),
            more <= slot_space(),
        ensures
            b == has_room(self@.table, more as int),
    {
        self.textures.len() + self.slots_needed(more) <= TEX_SLOT_MASK as usize + 1
    }
}

impl Ui {
    /// Installs all assets, or none. `parsed` holds what the readers of style
    /// tables and font atlases made of the inputs. Handles of textures are
    /// written at the places of their inputs, -1 at those of other assets. On
    /// an error neither the interface nor the handles change.
    ///
    /// Memory for the slots that the textures add is reserved first. Where none
    /// are added, good inputs are installed. Else whether they are depends on the
    /// memory there is.
    pub fn load_assets(
        &mut self,
        inputs: &[AssetInput<'_>],
        parsed: Vec<Parsed>,
        handles: &mut [i32],
    ) -> (r: Result<(), AssetError>)
        requires
            old(self).wf(),
            parsed@.len() == inputs@.len(),
            forall|i: int|
                #![trigger parsed@[i]]
                0 <= i < inputs@.len() ==> reads_as(inputs@[i].bytes@, parsed@[i]),
        ensures
            final(self).wf(),
            ({
                let st = staged(inputs@, parsed@, inputs@.len() as int);
                let good = old(handles)@.len() == inputs@.len() && (inputs@.len() == 0 || st is Some);
                let fits = has_room(old(self)@.table, st->0.textures.len() as int);
                &&& r == Err::<(), AssetError>(AssetError::Invalid) <==> !good
                &&& good && inputs@.len() == 0 ==> r is Ok
                &&& good && inputs@.len() > 0 && !fits ==> r == Err::<(), AssetError>(
                    AssetError::NoMemory,
                )
                &&& good && inputs@.len() > 0 && added_slots(
                    old(self)@.table,
                    st->0.textures.len() as int,
                ) == 0 ==> r is Ok
                &&& r is Err ==> final(self)@ == old(self)@ && final(handles)@ == old(handles)@
                &&& r is Ok && inputs@.len() == 0 ==> final(self)@ == old(self)@
                    && final(handles)@ == old(handles)@
                &&& r is Ok && inputs@.len() > 0 ==> final(self)@ == old(self)@.installed(st->0)
                    && final(handles)@ == old(self)@.handles_for(st->0)
            }),
    {
        if handles.len() != inputs.len() {
            return Err(AssetError::Invalid);
        }
        if inputs.len() == 0 {
            return Ok(());
        }
        match stage(inputs, parsed) {
            None => Err(AssetError::Invalid),
            Some(st) => {
                let n: usize = st.textures.len();
                if !self.room_for(n) {
                    return Err(AssetError::NoMemory);
                }
                let additional: usize = self.slots_needed(n);
                let ghost before = self@;
                let reserved: bool = additional == 0 || self.textures.try_reserve(
                    additional,
                ).is_ok();
                proof {
                    assert(self@ =~= before);
                    lemma_one_spot_each(inputs@, parsed@, inputs@.len() as int);
                }
                let given = match self.install(st, reserved) {
                    Ok(h) => h,
                    Err(e) => return Err(e),
                };
                let mut i: usize = 0;
                while i < given.len()
                    invariant
                        i <= given@.len(),
                        handles@.len() == given@.len(),
                        forall|j: int|
                            #![trigger handles@[j]]
                            0 <= j < i ==> handles@[j] == given@[j],
                    decreases given@.len() - i,
                {
                    handles[i] = given[i];
                    i = i + 1;
                }
                proof {
                    assert(handles@ =~= given@);
                }
                Ok(())
            },
        }
    }
}

/// Reads assets; `None` if one of them is not good.
pub fn stage(inputs: &[AssetInput<'_>], parsed: Vec<Parsed>) -> (r: Option<Staged>)
    requires
        parsed@.len() == inputs@.len(),
        forall|i: int|
            #![trigger parsed@[i]]
            0 <= i < inputs@.len() ==> reads_as(inputs@[i].bytes@, parsed@[i]),
    ensures
        r is Some <==> staged(inputs@, parsed@, inputs@.len() as int) is Some,
        r matches Some(st) ==> st.wf() && st@ == staged(inputs@, parsed@, inputs@.len() as int)->0,
{
    let ghost all = parsed@;
    let mut rest: Vec<Parsed> = parsed;
    let mut st = Staged::new();
    let mut i: usize = 0;
    let n: usize = inputs.len();
    proof {
        assert(rest@ =~= all.skip(0));
    }
    while i < n
        invariant
            i <= n,
            n == inputs@.len(),
            all == parsed@,
            all.len() == n,
            rest@ == all.skip(i as int),
            st.wf(),
            staged(inputs@, all, i as int) == Some(st@),
            forall|j: int|
                #![trigger all[j]]
                0 <= j < n ==> reads_as(inputs@[j].bytes@, all[j]),
        decreases n - i,
    {
        proof {
            assert(rest@[0] == all[i as int]);
        }
        let p = rest.remove(0);
        if !st.add_asset(&inputs[i], p) {
            proof {
                lemma_staged_stays_none(inputs@, all, i + 1, n as int);
            }
            return None;
        }
        proof {
            assert(rest@ =~= all.skip(i + 1));
        }
        i = i + 1;
    }
    Some(st)
}

proof fn lemma_one_spot_each(inputs: Seq<AssetInput<'_>>, parsed: Seq<Parsed>, n: int)
    requires
        0 <= n,
        staged(inputs, parsed, n) is Some,
    ensures
        staged(inputs, parsed, n)->0.spots.len() == n,
    decreases n,
{
    if n > 0 {
        lemma_one_spot_each(inputs, parsed, n - 1);
    }
}

proof fn lemma_staged_stays_none(inputs: Seq<AssetInput<'_>>, parsed: Seq<Parsed>, i: int, n: int)
    requires
        0 <= i <= n,
        staged(inputs, parsed, i) is None,
    ensures
        staged(inputs, parsed, n) is None,
    decreases n - i,
{
    if i < n {
        lemma_staged_stays_none(inputs, parsed, i + 1, n);
    }
}

// ---- laws -------------------------------------------------------------------------------------

/// The texture that an input stands for; `None` for those that are none.
pub open spec fn texture_of(kind: AssetKind, b: Seq<u8>) -> Option<TexModel> {
    match kind {
        AssetKind::Styles => None,
        AssetKind::Font => None,
        AssetKind::Image => img_entry_texture(b),
        AssetKind::Sprite => sprite_texture(b),
    }
}

/// Assets that are good are installed input by input: a style table or a font
/// gets -1, and a texture is live under the handle at its place, which no other
/// input gets. Whatever was live before still is, under a handle that no input
/// gets.
pub proof fn law_installed_textures_are_live(
    m: UiModel,
    inputs: Seq<AssetInput<'_>>,
    parsed: Seq<Parsed>,
    i: int,
    j: int,
    other: int,
)
    requires
        m.table.wf(),
        staged(inputs, parsed, inputs.len() as int) is Some,
        has_room(m.table, staged(inputs, parsed, inputs.len() as int)->0.textures.len() as int),
        0 <= i < inputs.len(),
        0 <= j < inputs.len(),
    ensures
        ({
            let st = staged(inputs, parsed, inputs.len() as int)->0;
            let (after, handles) = (m.installed(st).table, m.handles_for(st));
            &&& handles.len() == inputs.len()
            &&& inputs[i].kind is Styles || inputs[i].kind is Font ==> handles[i] == -1
            &&& inputs[i].kind is Image || inputs[i].kind is Sprite ==> handles[i] >= 0
                && after.live(handles[i] as int) is Some && after.live(handles[i] as int)
                == texture_of(inputs[i].kind, inputs[i].bytes@)
            &&& i != j && handles[i] >= 0 ==> handles[i] != handles[j]
            &&& m.table.live(other) is Some ==> after.live(other) == m.table.live(other)
                && handles[i] != other
        }),
{
    let n = inputs.len() as int;
    let st = staged(inputs, parsed, n)->0;
    lemma_one_spot_each(inputs, parsed, n);
    lemma_staged_textures(inputs, parsed, n);
    lemma_spot_holds(inputs, parsed, n, i);
    let k = st.spots[i];
    if k >= 0 {
        lemma_stored_all(m.table, st.textures, k);
        lemma_stored_stays_live(m.table, st.textures, st.textures.len() as int, k);
        lemma_handle_was_free(m.table, st.textures, k, other);
        lemma_spot_holds(inputs, parsed, n, j);
        let k2 = st.spots[j];
        if i != j && k2 >= 0 {
            lemma_spots_differ(inputs, parsed, n, i, j);
            lemma_stored_all(m.table, st.textures, k2);
            if k < k2 {
                lemma_handles_differ(m.table, st.textures, k, k2);
            } else {
                lemma_handles_differ(m.table, st.textures, k2, k);
            }
        }
    }
    if m.table.live(other) is Some {
        lemma_old_stay_live(m.table, st.textures, st.textures.len() as int, other);
    }
}

/// Textures that were read are complete.
proof fn lemma_staged_textures(inputs: Seq<AssetInput<'_>>, parsed: Seq<Parsed>, n: int)
    requires
        0 <= n,
        staged(inputs, parsed, n) is Some,
    ensures
        all_complete(staged(inputs, parsed, n)->0.textures),
    decreases n,
{
    if n > 0 {
        lemma_staged_textures(inputs, parsed, n - 1);
        let b = inputs[n - 1].bytes@;
        lemma_image_complete(b.skip(8), le16(b, 0) as u32, le16(b, 2) as u32, b[4] as u32, b[5]);
        lemma_image_complete(b.skip(16), le16(b, 0) as u32, le16(b, 2) as u32, b[4] as u32, 0);
    }
}

/// The spot of an input names its texture.
proof fn lemma_spot_holds(inputs: Seq<AssetInput<'_>>, parsed: Seq<Parsed>, n: int, i: int)
    requires
        0 <= i < n,
        staged(inputs, parsed, n) is Some,
    ensures
        ({
            let st = staged(inputs, parsed, n)->0;
            let k = st.spots[i];
            let want = texture_of(inputs[i].kind, inputs[i].bytes@);
            &&& inputs[i].kind is Styles || inputs[i].kind is Font ==> k == -1
            &&& inputs[i].kind is Image || inputs[i].kind is Sprite ==> 0 <= k < st.textures.len()
                && want == Some(st.textures[k])
        }),
    decreases n,
{
    lemma_one_spot_each(inputs, parsed, n - 1);
    if i < n - 1 {
        lemma_spot_holds(inputs, parsed, n - 1, i);
    }
}

/// No two inputs have the same texture.
proof fn lemma_spots_differ(inputs: Seq<AssetInput<'_>>, parsed: Seq<Parsed>, n: int, i: int, j: int)
    requires
        0 <= i < n,
        0 <= j < n,
        i != j,
        staged(inputs, parsed, n) is Some,
        staged(inputs, parsed, n)->0.spots[i] >= 0,
    ensures
        staged(inputs, parsed, n)->0.spots[i] != staged(inputs, parsed, n)->0.spots[j],
    decreases n,
{
    lemma_one_spot_each(inputs, parsed, n - 1);
    if i < n - 1 && j < n - 1 {
        lemma_spots_differ(inputs, parsed, n - 1, i, j);
    } else if i < n - 1 {
        lemma_spot_holds(inputs, parsed, n - 1, i);
    } else {
        lemma_spot_holds(inputs, parsed, n - 1, j);
    }
}

/// Textures that are stored one after the other have handles of their own.
proof fn lemma_handles_differ(table: TableModel, textures: Seq<TexModel>, a: int, b: int)
    requires
        table.wf(),
        all_complete(textures),
        has_room(table, textures.len() as int),
        0 <= a < b < textures.len(),
    ensures
        stored_handle(table, textures, a) != stored_handle(table, textures, b),
{
    lemma_stored_stays_live(table, textures, b, a);
    lemma_stored_all(table, textures, b);
    lemma_stored_handle_was_free(stored_all(table, textures, b), textures[b]);
}

/// A stored texture stays live while more are stored.
proof fn lemma_stored_stays_live(table: TableModel, textures: Seq<TexModel>, n: int, k: int)
    requires
        table.wf(),
        all_complete(textures),
        has_room(table, textures.len() as int),
        0 <= k < n <= textures.len(),
    ensures
        stored_all(table, textures, n).live(stored_handle(table, textures, k)) == Some(textures[k]),
    decreases n,
{
    lemma_stored_all(table, textures, n - 1);
    let before = stored_all(table, textures, n - 1);
    law_store_then_resolve(before, textures[n - 1]);
    if k < n - 1 {
        lemma_stored_stays_live(table, textures, n - 1, k);
        lemma_stored_handle_was_free(before, textures[n - 1]);
    }
}

/// What was live before keeps its handle to itself.
proof fn lemma_handle_was_free(table: TableModel, textures: Seq<TexModel>, k: int, other: int)
    requires
        table.wf(),
        all_complete(textures),
        has_room(table, textures.len() as int),
        0 <= k < textures.len(),
    ensures
        table.live(other) is Some ==> stored_handle(table, textures, k) != other,
{
    lemma_stored_all(table, textures, k);
    lemma_stored_handle_was_free(stored_all(table, textures, k), textures[k]);
    if table.live(other) is Some {
        lemma_old_stay_live(table, textures, k, other);
    }
}

proof fn lemma_old_stay_live(table: TableModel, textures: Seq<TexModel>, n: int, other: int)
    requires
        table.wf(),
        all_complete(textures),
        has_room(table, textures.len() as int),
        0 <= n <= textures.len(),
        table.live(other) is Some,
    ensures
        stored_all(table, textures, n).live(other) == table.live(other),
    decreases n,
{
    if n > 0 {
        lemma_old_stay_live(table, textures, n - 1, other);
        lemma_stored_all(table, textures, n - 1);
        let before = stored_all(table, textures, n - 1);
        law_store_then_resolve(before, textures[n - 1]);
        lemma_stored_handle_was_free(before, textures[n - 1]);
    }
}

/// A sprite entry that is read has a grid: its cells divide the sheet evenly,
/// and there is one for each of its frames.
pub proof fn law_sprite_has_a_grid(b: Seq<u8>)
    requires
        sprite_texture(b) is Some,
    ensures
        ({
            let (frames, cols) = (le16(b, 6), le16(b, 8));
            let rows = (frames + cols - 1) / cols;
            let m = sprite_texture(b)->0;
            &&& frames >= 1 && cols >= 1 && rows >= 1
            &&& m.w as int % cols == 0 && m.h as int % rows == 0
            &&& (rows - 1) * cols < frames <= rows * cols
        }),
{
    let (frames, cols) = (le16(b, 6), le16(b, 8));
    let rows = (frames + cols - 1) / cols;
    assert(rows >= 1 && (rows - 1) * cols < frames <= rows * cols) by (nonlinear_arith)
        requires
            rows == (frames + cols - 1) / cols,
            frames >= 1,
            cols >= 1,
    ;
}

proof fn lemma_staged_style_stays(
    inputs: Seq<AssetInput<'_>>,
    parsed: Seq<Parsed>,
    n: int,
    i: int,
)
    requires
        0 <= i < n,
        staged(inputs, parsed, n) is Some,
    ensures
        ({
            let st = staged(inputs, parsed, n)->0;
            &&& st.fonts.len() == MAX_FONT_SLOTS
            &&& inputs[i].kind is Styles ==> (parsed[i] matches Parsed::Styles(t) && st.styles
                == Some(t))
            &&& inputs[i].kind is Font ==> (parsed[i] matches Parsed::Font(a)
                && inputs[i].bytes@.len() > 12 && inputs[i].bytes@[12] < MAX_FONT_SLOTS
                && st.fonts[inputs[i].bytes@[12] as int] == Some(a))
        }),
    decreases n,
{
    lemma_staged_fonts(inputs, parsed, n - 1);
    if i < n - 1 {
        lemma_staged_style_stays(inputs, parsed, n - 1, i);
    }
}

proof fn lemma_staged_fonts(inputs: Seq<AssetInput<'_>>, parsed: Seq<Parsed>, n: int)
    requires
        0 <= n,
        staged(inputs, parsed, n) is Some,
    ensures
        staged(inputs, parsed, n)->0.fonts.len() == MAX_FONT_SLOTS,
    decreases n,
{
    if n > 0 {
        lemma_staged_fonts(inputs, parsed, n - 1);
    }
}

/// A style table that is installed takes the place of the one before, and a font
/// goes to its slot; slots and tables that no input is for stay as they are.
pub proof fn law_installed_styles_and_fonts(
    m: UiModel,
    inputs: Seq<AssetInput<'_>>,
    parsed: Seq<Parsed>,
    i: int,
)
    requires
        staged(inputs, parsed, inputs.len() as int) is Some,
        0 <= i < inputs.len(),
    ensures
        ({
            let st = staged(inputs, parsed, inputs.len() as int)->0;
            let n = m.installed(st);
            &&& inputs[i].kind is Styles ==> (parsed[i] matches Parsed::Styles(t) && n.rules.styles
                == t)
            &&& inputs[i].kind is Font ==> (parsed[i] matches Parsed::Font(a) && n.fonts[inputs[i].bytes@[12] as int]
                == Some(a))
            &&& n.rules.props == m.rules.props && n.rules.hz == m.rules.hz
            &&& n.scene.nodes == m.scene.nodes && n.scene.tree == m.scene.tree
            &&& n.scene.layouts.main.dirty
            &&& n.revision != m.revision
        }),
{
    lemma_staged_style_stays(inputs, parsed, inputs.len() as int, i);
}

proof fn lemma_untouched(
    inputs: Seq<AssetInput<'_>>,
    parsed: Seq<Parsed>,
    n: int,
    slot: int,
)
    requires
        0 <= n <= inputs.len(),
        0 <= slot < MAX_FONT_SLOTS,
        staged(inputs, parsed, n) is Some,
        forall|i: int|
            #![trigger inputs[i]]
            0 <= i < inputs.len() ==> !(inputs[i].kind is Styles) && (inputs[i].kind is Font
                ==> inputs[i].bytes@[12] != slot),
    ensures
        staged(inputs, parsed, n)->0.styles is None,
        staged(inputs, parsed, n)->0.fonts[slot] is None,
    decreases n,
{
    if n > 0 {
        lemma_untouched(inputs, parsed, n - 1, slot);
        lemma_staged_fonts(inputs, parsed, n - 1);
        assert(!(inputs[n - 1].kind is Styles));
    }
}

/// Without a style table among the inputs the one before stays, and without a
/// font for a slot the one in it.
pub proof fn law_other_resources_stay(
    m: UiModel,
    inputs: Seq<AssetInput<'_>>,
    parsed: Seq<Parsed>,
    slot: int,
)
    requires
        0 <= slot < MAX_FONT_SLOTS,
        staged(inputs, parsed, inputs.len() as int) is Some,
        forall|i: int|
            #![trigger inputs[i]]
            0 <= i < inputs.len() ==> !(inputs[i].kind is Styles) && (inputs[i].kind is Font
                ==> inputs[i].bytes@[12] != slot),
    ensures
        ({
            let n = m.installed(staged(inputs, parsed, inputs.len() as int)->0);
            n.rules == m.rules && n.fonts[slot] == m.fonts[slot]
        }),
{
    lemma_untouched(inputs, parsed, inputs.len() as int, slot);
}

} // verus!
