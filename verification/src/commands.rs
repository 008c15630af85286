//! The operations that scripts call on a user interface.
use crate::constants::{
    F32_COORD_MAX, F32_COORD_MIN, F32_ONE, MAX_FONT_SLOTS, NODE_SURFACE, ROOT_ID,
};
use crate::drawlist::{CompositorSurfaceFrame, DrawList};
use crate::fbits::{above_zero, clamp, clamped, is_nan, nan, positive};
use crate::font::Atlas;
use crate::playback::TrackStep;
use crate::restyle::Rules;
use crate::scene::{node_values, LayoutModel, LayoutsModel, Scene, SceneModel};
use crate::style::{StyleTable, KIND_NONE};
use crate::surface::surface_size;
use crate::texture::{resolves, tex_resolve};
use crate::touch::after_frame;
use crate::ui::{counted, Cursor, Inspector, IntRect, Ui, UiModel};
use crate::walk::HitFacts;
use vstd::prelude::*;

verus! {

// ---- nodes --------------------------------------------------------------------------------

impl Ui {
    /// Makes the auxiliary surface, or gives it another size, and returns its
    /// root; 0 when ids run out.
    pub fn create_auxiliary_surface(&mut self, width: u32, height: u32) -> (root: i32)
        requires
            old(self).wf(),
        ensures
            final(self).wf(),
            ({
                let (scene, id) = old(self)@.scene.with_auxiliary(
                    old(self)@.rules.props,
                    surface_size(width, height),
                );
                final(self)@ == old(self)@.with_scene(scene) && root == id
            }),
    {
        self.scene.create_auxiliary_surface(width, height)
    }

    pub fn auxiliary_surface_root(&self) -> (root: i32)
        ensures
            root == self@.scene.layouts.aux_root(),
    {
        self.scene.auxiliary_surface_root()
    }

    /// Size of the auxiliary surface.
    pub fn auxiliary_viewport(&self) -> (r: Option<(u32, u32)>)
        ensures
            r == (match self@.scene.layouts.aux {
                Some((_root, l)) => Some(l.viewport),
                None => None,
            }),
    {
        self.scene.auxiliary_viewport()
    }

    /// Creates a detached node and returns its id; 0 for a sort of node that
    /// does not exist, and when ids run out.
    pub fn create_node(&mut self, kind: u8) -> (id: i32)
        requires
            old(self).wf(),
        ensures
            final(self).wf(),
            kind > NODE_SURFACE || Scene::created(old(self)@.scene, kind) is None ==> id == 0
                && final(self)@ == old(self)@,
            kind <= NODE_SURFACE && Scene::created(old(self)@.scene, kind) is Some ==> ({
                let (m, s) = Scene::created(old(self)@.scene, kind)->0;
                final(self)@ == old(self)@.with_scene(m) && id == m.tree.id_of(s) && id > 0
            }),
    {
        self.scene.create_node(kind)
    }

    /// Destroys a node and all below it. Stale ids and roots are left alone.
    pub fn destroy_node(&mut self, id: i32)
        requires
            old(self).wf(),
        ensures
            final(self).wf(),
            final(self)@ == old(self)@.with_scene(final(self)@.scene),
            !old(self)@.scene.can_destroy(id as int) ==> final(self)@ == old(self)@,
            old(self)@.scene.can_destroy(id as int) ==> exists|list: Seq<u32>|
                #[trigger] old(self)@.scene.destroyed(
                    old(self)@.scene.tree.resolves(id as int)->0,
                    list,
                    final(self)@.scene,
                ),
    {
        self.scene.destroy_node(id);
    }

    /// Puts `child` under `parent` before `anchor`, or at the end for 0.
    pub fn insert_before(&mut self, parent: i32, child: i32, anchor: i32)
        requires
            old(self).wf(),
        ensures
            final(self).wf(),
            final(self)@ == old(self)@.with_scene(
                Scene::moved(old(self)@.scene, parent as int, child as int, anchor as int),
            ),
    {
        self.scene.insert_before(parent, child, anchor);
    }

    /// Takes `child` from under `parent` and keeps it.
    pub fn remove_child(&mut self, parent: i32, child: i32)
        requires
            old(self).wf(),
        ensures
            final(self).wf(),
            final(self)@ == old(self)@.with_scene(
                Scene::removed(old(self)@.scene, parent as int, child as int),
            ),
    {
        self.scene.remove_child(parent, child);
    }
}

// ---- looks ----------------------------------------------------------------------------------

impl UiModel {
    /// The interface after the node that an id names, if any, was changed by
    /// `change`.
    pub open spec fn at_node(self, id: i32, change: spec_fn(int) -> SceneModel) -> UiModel {
        match self.scene.tree.resolves(id as int) {
            Some(s) => self.with_scene(change(s)),
            None => self,
        }
    }
}

impl Ui {
    /// Applies a style to a node; one below 0 takes it away.
    pub fn set_style(&mut self, id: i32, style_id: i32)
        requires
            old(self).wf(),
        ensures
            final(self).wf(),
            final(self)@ == old(self)@.at_node(
                id,
                |s: int| old(self)@.scene.with_style(old(self)@.rules, s, style_id),
            ),
    {
        self.scene.set_style(id, style_id);
    }

    /// Sets the value of one property of a node.
    pub fn set_prop(&mut self, id: i32, prop: u8, bits: u32)
        requires
            old(self).wf(),
        ensures
            final(self).wf(),
            final(self)@ == old(self)@.at_node(
                id,
                |s: int|
                    if old(self)@.rules.props.kind_of(prop) == KIND_NONE {
                        old(self)@.scene
                    } else {
                        old(self)@.scene.with_prop(old(self)@.rules, s, prop, bits)
                    },
            ),
    {
        self.scene.set_prop(id, prop, bits);
    }

    /// Sets the text of a text node.
    pub fn set_text(&mut self, id: i32, text: &str)
        requires
            old(self).wf(),
        ensures
            final(self).wf(),
            final(self)@ == old(self)@.at_node(
                id,
                |s: int| old(self)@.scene.with_text(old(self)@.rules, s, text@),
            ),
    {
        self.scene.set_text(id, text);
    }

    /// Sets the text of a text node.
    pub fn replace_text(&mut self, id: i32, text: &str)
        requires
            old(self).wf(),
        ensures
            final(self).wf(),
            final(self)@ == old(self)@.at_node(
                id,
                |s: int| old(self)@.scene.with_text(old(self)@.rules, s, text@),
            ),
    {
        self.scene.set_text(id, text);
    }

    /// Binds a texture to an image; a handle below 0 takes it away and a stale
    /// one changes nothing.
    pub fn set_image(&mut self, id: i32, tex: i32)
        requires
            old(self).wf(),
        ensures
            final(self).wf(),
            final(self)@ == old(self)@.with_scene(
                old(self)@.scene.with_image(
                    id as int,
                    tex,
                    resolves(old(self)@.table.slots, tex as int) is Some,
                ),
            ),
    {
        let known: bool = tex_resolve(self.textures.as_slice(), tex).is_some();
        self.scene.set_image(id, tex, known);
    }

    /// Binds a sprite to an image. It starts at its first cell now.
    pub fn set_sprite(&mut self, id: i32, atlas: i32, frames: u32, cols: u32, step: u32)
        requires
            old(self).wf(),
        ensures
            final(self).wf(),
            final(self)@ == old(self)@.with_scene(
                old(self)@.scene.with_sprite(
                    id as int,
                    atlas,
                    resolves(old(self)@.table.slots, atlas as int) is Some,
                    frames,
                    cols,
                    step,
                    old(self)@.frame,
                ),
            ),
    {
        let known: bool = tex_resolve(self.textures.as_slice(), atlas).is_some();
        let now: u64 = self.frame;
        self.scene.set_sprite(id, atlas, known, frames, cols, step, now);
    }

    /// Binds a composited surface to a node; one below 0 takes it away.
    pub fn set_compositor_surface(&mut self, id: i32, surface: i32, focused: bool)
        requires
            old(self).wf(),
        ensures
            final(self).wf(),
            final(self)@ == old(self)@.with_scene(
                old(self)@.scene.with_surface(id as int, surface, focused),
            ),
    {
        self.scene.set_compositor_surface(id, surface, focused);
    }

    /// All composited surfaces that nodes hold, shown or not.
    pub fn compositor_surface_bindings(&self) -> (r: Vec<(u32, bool)>)
        requires
            self.wf(),
        ensures
            r@ == self@.scene.bindings(self@.scene.nodes.len() as int),
    {
        self.scene.compositor_surface_bindings()
    }

    /// Takes in the list of a frame that was drawn just now, and returns the
    /// composited surfaces that it shows, in painting order.
    pub fn compositor_surface_frames(&mut self, drawn: DrawList) -> (frames: Vec<
        CompositorSurfaceFrame,
    >)
        requires
            old(self).wf(),
        ensures
            final(self).wf(),
            final(self)@ == (UiModel { list: drawn.words@, ..old(self)@ }),
            frames@ == crate::drawlist::surfaces_from(drawn.words@, 0),
    {
        let frames = crate::drawlist::compositor_surface_frames(drawn.words.as_slice());
        self.draw_list = drawn;
        frames
    }

    /// Puts a style table, as read from its file, in place of the present one.
    /// Without a table nothing changes.
    pub fn load_styles(&mut self, table: Option<StyleTable>) -> (ok: bool)
        requires
            old(self).wf(),
            table matches Some(t) ==> t.wf(),
        ensures
            final(self).wf(),
            ok == table is Some,
            final(self)@ == (match table {
                Some(styles) => (UiModel {
                    scene: old(self)@.scene.dirtied(),
                    rules: Rules { styles, ..old(self)@.rules },
                    ..old(self)@
                }).bumped(),
                None => old(self)@,
            }),
    {
        match table {
            Some(t) => {
                self.scene.styles = t;
                self.scene.layouts.mark_layout_dirty();
                self.raster_revision = next_count(self.raster_revision);
                true
            },
            None => false,
        }
    }

    /// Puts a font atlas, as read from its file, in its slot. Without an
    /// atlas, or for a slot that there is not, nothing changes.
    pub fn load_font_atlas(&mut self, atlas: Option<Atlas>) -> (ok: bool)
        requires
            old(self).wf(),
            atlas matches Some(a) ==> a.wf(),
        ensures
            final(self).wf(),
            ok == (atlas matches Some(a) && a.slot < MAX_FONT_SLOTS),
            final(self)@ == (if ok {
                (UiModel {
                    scene: old(self)@.scene.dirtied(),
                    fonts: old(self)@.fonts.update(atlas->0.slot as int, atlas),
                    ..old(self)@
                }).bumped()
            } else {
                old(self)@
            }),
    {
        match atlas {
            Some(a) => {
                let slot: usize = a.slot as usize;
                if slot >= MAX_FONT_SLOTS {
                    return false;
                }
                self.fonts.set(slot, Some(a));
                self.scene.layouts.mark_layout_dirty();
                self.raster_revision = next_count(self.raster_revision);
                true
            },
            None => false,
        }
    }

    /// Text is measured by other means from now on: all of it is laid out
    /// anew.
    pub fn set_text_measure(&mut self)
        requires
            old(self).wf(),
        ensures
            final(self).wf(),
            final(self)@ == old(self)@.with_scene(old(self)@.scene.dirtied()),
    {
        self.scene.layouts.mark_layout_dirty();
    }

    /// The values of all properties of a node.
    pub fn resolved_style(&self, id: i32) -> (r: Option<Vec<u32>>)
        requires
            self.wf(),
        ensures
            r is Some <==> self@.scene.tree.resolves(id as int) is Some,
            r matches Some(v) ==> v@ == node_values(
                self@.scene.nodes[self@.scene.tree.resolves(id as int)->0],
                self@.rules.styles,
                true,
            ),
    {
        match self.scene.tree.resolve(id) {
            Some(s) => Some(self.scene.nodes[s as usize].resolve(&self.scene.styles, true)),
            None => None,
        }
    }
}

fn next_count(n: u64) -> (r: u64)
    ensures
        r == counted(n),
{
    if n == u64::MAX {
        0
    } else {
        n + 1
    }
}

// ---- animation and focus ----------------------------------------------------------------------

impl Ui {
    /// Starts an animation of a property from its present value. Returns its
    /// id; -1 when there is none, and 0 when there is no place for it.
    pub fn animate(
        &mut self,
        id: i32,
        prop: u8,
        to: u32,
        dur_ms: u32,
        easing: u8,
        delay_ms: u32,
    ) -> (anim: i32)
        requires
            old(self).wf(),
        ensures
            final(self).wf(),
            ({
                let (scene, a) = old(self)@.scene.with_animation(
                    old(self)@.rules,
                    id as int,
                    prop,
                    to,
                    dur_ms,
                    easing,
                    delay_ms,
                );
                final(self)@ == old(self)@.with_scene(scene) && anim == a
            }),
    {
        self.scene.animate(id, prop, to, dur_ms, easing, delay_ms)
    }

    /// Stops an animation. Its property keeps the value it has now.
    pub fn cancel_anim(&mut self, anim: i32)
        requires
            old(self).wf(),
        ensures
            final(self).wf(),
            final(self)@ == old(self)@.with_scene(
                old(self)@.scene.with_anim_cancelled(anim as int),
            ),
    {
        self.scene.cancel_anim(anim);
    }

    /// Moves the focus; 0 takes it away.
    pub fn set_focus(&mut self, id: i32)
        requires
            old(self).wf(),
        ensures
            final(self).wf(),
            final(self)@ == old(self)@.with_scene(
                old(self)@.scene.focus_moved(old(self)@.rules, id),
            ),
    {
        self.scene.set_focus(id);
    }

    /// Presses or releases a node.
    pub fn set_active(&mut self, id: i32, active: bool)
        requires
            old(self).wf(),
        ensures
            final(self).wf(),
            final(self)@ == old(self)@.at_node(
                id,
                |s: int| old(self)@.scene.with_active(old(self)@.rules, s, active),
            ),
    {
        self.scene.set_active(id, active);
    }

    /// The node that has the focus; 0 for none.
    pub fn focused(&self) -> (id: i32)
        ensures
            id == self@.scene.focused,
    {
        self.scene.focused
    }

    /// The node painted at a point of the main surface; 0 for none.
    pub fn hit_test(&self, facts: &[HitFacts]) -> (id: i32)
        requires
            self.wf(),
            facts@.len() == self@.scene.nodes.len(),
        ensures
            id == self@.scene.hit(self@.rules, facts@, true, ROOT_ID as int),
    {
        self.scene.hit_test(facts)
    }

    /// The node whose box is at a point of the main surface; 0 for none.
    pub fn hit_test_bounds(&self, facts: &[HitFacts]) -> (id: i32)
        requires
            self.wf(),
            facts@.len() == self@.scene.nodes.len(),
        ensures
            id == self@.scene.hit(self@.rules, facts@, false, ROOT_ID as int),
    {
        self.scene.hit_test_bounds(facts)
    }

    /// The node painted at a point of the auxiliary surface; 0 for none.
    pub fn hit_test_auxiliary(&self, facts: &[HitFacts]) -> (id: i32)
        requires
            self.wf(),
            facts@.len() == self@.scene.nodes.len(),
        ensures
            id == self@.scene.hit(self@.rules, facts@, true, self@.scene.layouts.aux_root()),
    {
        self.scene.hit_test_auxiliary(facts)
    }

    /// The node whose box is at a point of the auxiliary surface; 0 for none.
    pub fn hit_test_bounds_auxiliary(&self, facts: &[HitFacts]) -> (id: i32)
        requires
            self.wf(),
            facts@.len() == self@.scene.nodes.len(),
        ensures
            id == self@.scene.hit(self@.rules, facts@, false, self@.scene.layouts.aux_root()),
    {
        self.scene.hit_test_bounds_auxiliary(facts)
    }
}

impl Ui {
    /// The nodes that the contacts of a frame are on; `under` holds what lies
    /// under each of them now.
    pub fn touch_hits(&mut self, contacts: &[u32], under: &[i32]) -> (nodes: Vec<i32>)
        requires
            old(self).wf(),
            contacts@.len() == under@.len(),
        ensures
            final(self).wf(),
            final(self)@ == (UiModel {
                touches: after_frame(old(self)@.touches, contacts@, under@),
                ..old(self)@
            }),
            nodes@ =~= final(self)@.touches.map_values(|e: (u32, i32)| e.1),
    {
        self.touch_table.resolve(contacts, under)
    }

    /// The nodes that the contacts of a frame on the auxiliary surface are on;
    /// none without such a surface.
    pub fn touch_hits_auxiliary(&mut self, contacts: &[u32], under: &[i32]) -> (nodes: Vec<i32>)
        requires
            old(self).wf(),
            contacts@.len() == under@.len(),
        ensures
            final(self).wf(),
            old(self)@.scene.layouts.aux is None ==> nodes@.len() == 0 && final(self)@
                == old(self)@,
            old(self)@.scene.layouts.aux is Some ==> final(self)@ == (UiModel {
                aux_touches: after_frame(old(self)@.aux_touches, contacts@, under@),
                ..old(self)@
            }) && nodes@ =~= final(self)@.aux_touches.map_values(|e: (u32, i32)| e.1),
    {
        if self.scene.layouts.aux.is_none() {
            return Vec::new();
        }
        self.aux_touch_table.resolve(contacts, under)
    }
}

// ---- the pointer --------------------------------------------------------------------------------

/// A size, with 0 for what is not above zero.
pub open spec fn size_or_zero(bits: u32) -> u32 {
    if above_zero(bits) {
        bits
    } else {
        0
    }
}

/// The size along one axis at which the pointer is drawn.
pub enum CursorSize {
    /// The bit pattern of a size.
    Given(u32),
    /// That of the texture.
    Texels(u32),
}

/// The pointer as it is drawn: its top left corner is `hot` before `pos`.
pub struct CursorSprite {
    pub tex: u32,
    pub pos: (u32, u32),
    pub hot: (u32, u32),
    pub w: CursorSize,
    pub h: CursorSize,
}

pub open spec fn cursor_size(bits: u32, texels: u32) -> CursorSize {
    if above_zero(bits) {
        CursorSize::Given(bits)
    } else {
        CursorSize::Texels(texels)
    }
}

fn sprite_size(bits: u32, texels: u32) -> (r: CursorSize)
    ensures
        r == cursor_size(bits, texels),
{
    if positive(bits) {
        CursorSize::Given(bits)
    } else {
        CursorSize::Texels(texels)
    }
}

impl UiModel {
    /// The pointer as it is drawn, unless it is hidden or its texture is gone.
    pub open spec fn cursor_sprite(self) -> Option<CursorSprite> {
        match self.table.live(self.cursor.tex as int) {
            Some(t) => Some(
                CursorSprite {
                    tex: self.cursor.tex as u32,
                    pos: self.cursor.pos,
                    hot: self.cursor.hot,
                    w: cursor_size(self.cursor.size.0, t.w),
                    h: cursor_size(self.cursor.size.1, t.h),
                },
            ),
            None => None,
        }
    }
}

impl Ui {
    /// Binds a texture to the pointer, with its hot spot and size. A handle
    /// that names no texture hides the pointer.
    pub fn set_cursor(&mut self, tex: i32, hot_x: u32, hot_y: u32, w: u32, h: u32)
        requires
            old(self).wf(),
        ensures
            final(self).wf(),
            final(self)@ == (UiModel {
                cursor: Cursor {
                    tex: if resolves(old(self)@.table.slots, tex as int) is Some {
                        tex
                    } else {
                        (-1) as i32
                    },
                    hot: (hot_x, hot_y),
                    size: (size_or_zero(w), size_or_zero(h)),
                    pos: old(self)@.cursor.pos,
                },
                ..old(self)@
            }),
    {
        let known: bool = tex_resolve(self.textures.as_slice(), tex).is_some();
        let pos: (u32, u32) = self.cursor.pos;
        self.cursor = Cursor {
            tex: if known {
                tex
            } else {
                -1
            },
            hot: (hot_x, hot_y),
            size: (
                if positive(w) {
                    w
                } else {
                    0
                },
                if positive(h) {
                    h
                } else {
                    0
                },
            ),
            pos,
        };
    }

    /// Moves the pointer, within the coordinates that drawing lists hold.
    pub fn set_cursor_pos(&mut self, x: u32, y: u32)
        requires
            old(self).wf(),
        ensures
            final(self).wf(),
            final(self)@ == (UiModel {
                cursor: Cursor {
                    pos: (
                        clamped(x, F32_COORD_MIN, F32_COORD_MAX),
                        clamped(y, F32_COORD_MIN, F32_COORD_MAX),
                    ),
                    ..old(self)@.cursor
                },
                ..old(self)@
            }),
    {
        self.cursor.pos = (
            clamp(x, F32_COORD_MIN, F32_COORD_MAX),
            clamp(y, F32_COORD_MIN, F32_COORD_MAX),
        );
    }

    /// The pointer as it is drawn.
    pub fn cursor_sprite(&self) -> (r: Option<CursorSprite>)
        requires
            self.wf(),
        ensures
            r == self@.cursor_sprite(),
    {
        match tex_resolve(self.textures.as_slice(), self.cursor.tex) {
            Some(slot) => {
                proof {
                    assert(self@.table.slots[slot as int] == self.textures@[slot as int]@);
                }
                match &self.textures[slot as usize].tex {
                    Some(t) => Some(
                        CursorSprite {
                            tex: self.cursor.tex as u32,
                            pos: self.cursor.pos,
                            hot: self.cursor.hot,
                            w: sprite_size(self.cursor.size.0, t.w),
                            h: sprite_size(self.cursor.size.1, t.h),
                        },
                    ),
                    None => None,
                }
            },
            None => None,
        }
    }
}

// ---- frames -----------------------------------------------------------------------------------------

impl UiModel {
    /// A frame goes on: the world is not paused, or one step was asked for.
    pub open spec fn advances(self) -> bool {
        !self.paused || self.step_pending
    }

    /// The interface after a frame.
    pub open spec fn ticked(self, steps: Seq<TrackStep>) -> UiModel {
        if self.advances() {
            UiModel {
                ticked: true,
                step_pending: if self.paused {
                    false
                } else {
                    self.step_pending
                },
                frame: counted(self.frame),
                scene: self.scene.ticked(self.rules.styles, self.rules.props, steps),
                ..self
            }
        } else {
            UiModel { ticked: true, ..self }
        }
    }

    /// The interface after its main surface got this size.
    pub open spec fn with_viewport(self, size: (u32, u32)) -> UiModel {
        let same = self.scene.layouts.main.viewport == size && !is_nan(size.0) && !is_nan(size.1);
        if same {
            self
        } else {
            let layouts = LayoutsModel {
                main: LayoutModel { viewport: size, ..self.scene.layouts.main },
                ..self.scene.layouts
            };
            let r = self.rules;
            let s = crate::tree::root_slot();
            let m = SceneModel { layouts, ..self.scene };
            let m1 = if r.props.kind_of(r.props.width) == KIND_NONE {
                m
            } else {
                m.with_prop(r, s, r.props.width, size.0)
            };
            let m2 = if r.props.kind_of(r.props.height) == KIND_NONE {
                m1
            } else {
                m1.with_prop(r, s, r.props.height, size.1)
            };
            self.with_scene(m2)
        }
    }
}

impl Ui {
    /// One frame; `steps` holds where each track is after it. Returns whether
    /// the main surface has to be laid out. While the world is paused nothing
    /// moves.
    pub fn tick(&mut self, steps: &[TrackStep]) -> (lay_out: bool)
        requires
            old(self).wf(),
            steps@.len() == old(self)@.scene.tracks.len(),
        ensures
            final(self).wf(),
            final(self)@ == old(self)@.ticked(steps@),
            lay_out == (old(self)@.advances() && final(self)@.scene.layouts.main.pending()),
    {
        self.ticked = true;
        if self.paused {
            if !self.step_pending {
                return false;
            }
            self.step_pending = false;
        }
        self.frame = next_count(self.frame);
        self.scene.tick(steps);
        self.scene.layouts.main.needs()
    }

    /// Whether the main surface has to be laid out.
    pub fn needs_layout(&self) -> (r: bool)
        ensures
            r == self@.scene.layouts.main.pending(),
    {
        self.scene.layouts.main.needs()
    }

    /// The main surface was laid out.
    pub fn layout_done(&mut self)
        requires
            old(self).wf(),
        ensures
            final(self).wf(),
            !final(self)@.scene.layouts.main.pending(),
            final(self)@ == old(self)@.with_scene(
                SceneModel {
                    layouts: LayoutsModel {
                        main: LayoutModel {
                            dirty: false,
                            restyle: Set::empty(),
                            viewport: old(self)@.scene.layouts.main.viewport,
                        },
                        ..old(self)@.scene.layouts
                    },
                    ..old(self)@.scene
                },
            ),
    {
        self.scene.layouts.main.done();
    }

    /// Gives the main surface another size.
    pub fn set_viewport(&mut self, w: u32, h: u32)
        requires
            old(self).wf(),
        ensures
            final(self).wf(),
            final(self)@ == old(self)@.with_viewport(surface_size(w, h)),
    {
        let cw: u32 = clamp(w, F32_ONE, F32_COORD_MAX);
        let ch: u32 = clamp(h, F32_ONE, F32_COORD_MAX);
        let (vw, vh): (u32, u32) = self.scene.layouts.main.viewport;
        if vw == cw && vh == ch && !nan(cw) && !nan(ch) {
            return;
        }
        let ghost m = self@;
        self.scene.layouts.main.viewport = (cw, ch);
        let (pw, ph): (u8, u8) = (self.scene.props.width, self.scene.props.height);
        proof {
            let t = m.scene.tree;
            assert(t.links[1].alive && t.links[1].gen == 0);
            assert(t.resolves(ROOT_ID as int) == Some(1int)) by {
                assert(1int % crate::tree::id_space() == 1);
                assert(1int / crate::tree::id_space() == 0);
            }
        }
        self.scene.set_prop(ROOT_ID, pw, cw);
        self.scene.set_prop(ROOT_ID, ph, ch);
    }

    /// Size of the main surface.
    pub fn viewport(&self) -> (r: (u32, u32))
        ensures
            r == self@.scene.layouts.main.viewport,
    {
        self.scene.layouts.main.viewport
    }
}

// ---- drawing ----------------------------------------------------------------------------------------

/// What came of painting a surface.
#[derive(Clone, Copy)]
pub struct Painted {
    /// Where the inspected node was painted.
    pub target: Option<IntRect>,
    /// Bit patterns of the frame drawn around it.
    pub drawn: Option<(u32, u32, u32, u32)>,
    /// Some text was laid out for another way of drawing it than this frame
    /// asks for.
    pub text_stale: bool,
}

impl UiModel {
    /// The interface after its main surface was painted. When text has to be
    /// laid out for another way of drawing, all boxes are built anew and the
    /// surface is painted once more.
    pub open spec fn painted(self, p: Painted, again: bool) -> UiModel {
        if p.text_stale && !again {
            self.with_scene(self.scene.dirtied())
        } else {
            UiModel {
                inspector: Inspector {
                    drawn: p.drawn,
                    rect: if self.inspector.id != 0 {
                        p.target
                    } else {
                        self.inspector.rect
                    },
                    ..self.inspector
                },
                ..self
            }
        }
    }

    /// The interface after its auxiliary surface was painted.
    pub open spec fn aux_painted(self, p: Painted, again: bool) -> UiModel {
        match self.scene.layouts.aux {
            Some((root, l)) => if p.text_stale && !again {
                self.with_scene(
                    SceneModel {
                        layouts: LayoutsModel { aux: Some((root, l.dirtied())), ..self.scene.layouts },
                        ..self.scene
                    },
                )
            } else {
                UiModel {
                    inspector: Inspector {
                        aux_drawn: p.drawn,
                        rect: if p.target is Some {
                            p.target
                        } else {
                            self.inspector.rect
                        },
                        ..self.inspector
                    },
                    ..self
                }
            },
            None => self,
        }
    }
}

impl Ui {
    /// Takes in what came of painting the main surface, the first time or
    /// `again`. Returns whether it has to be laid out and painted once more.
    pub fn finish_draw(&mut self, p: Painted, again: bool) -> (retry: bool)
        requires
            old(self).wf(),
        ensures
            final(self).wf(),
            retry == (p.text_stale && !again),
            final(self)@ == old(self)@.painted(p, again),
    {
        if p.text_stale && !again {
            self.scene.layouts.mark_layout_dirty();
            return true;
        }
        self.inspector.drawn = p.drawn;
        if self.inspector.id != 0 {
            self.inspector.rect = p.target;
        }
        false
    }

    /// Takes in what came of painting the auxiliary surface.
    pub fn finish_draw_auxiliary(&mut self, p: Painted, again: bool) -> (retry: bool)
        requires
            old(self).wf(),
        ensures
            final(self).wf(),
            retry == (old(self)@.scene.layouts.aux is Some && p.text_stale && !again),
            final(self)@ == old(self)@.aux_painted(p, again),
    {
        let ghost m = self@;
        if self.scene.layouts.aux.is_none() {
            return false;
        }
        if p.text_stale && !again {
            match &mut self.scene.layouts.aux {
                Some(a) => {
                    a.layout.dirty = true;
                },
                None => {},
            }
            proof {
                assert(self@.scene.layouts =~= m.aux_painted(p, again).scene.layouts);
            }
            return true;
        }
        self.inspector.aux_drawn = p.drawn;
        if p.target.is_some() {
            self.inspector.rect = p.target;
        }
        false
    }

    /// The list of the frame last drawn.
    pub fn current_draw_list(&self) -> (d: &DrawList)
        ensures
            d.words@ == self@.list,
    {
        &self.draw_list
    }

    /// The list of the auxiliary surface, when there is one.
    pub fn current_auxiliary_draw_list(&self) -> (d: Option<&DrawList>)
        ensures
            d is Some <==> self@.scene.layouts.aux is Some,
            d matches Some(l) ==> l.words@ == self@.aux_list,
    {
        if self.scene.layouts.aux.is_some() {
            Some(&self.aux_draw_list)
        } else {
            None
        }
    }
}

// ---- inspection and pausing ---------------------------------------------------------------------------

/// Two numbers in one, 16 bits each, read as a signed number.
pub open spec fn packed_pair(lo: int, hi: int) -> int {
    let u = lo % 0x1_0000 + 0x1_0000 * (hi % 0x1_0000);
    if u >= 0x8000_0000 {
        u - 0x1_0000_0000
    } else {
        u
    }
}

fn half_word(v: i32) -> (r: i64)
    ensures
        r == v as int % 0x1_0000,
{
    let wide: i64 = v as i64 + 0x8000_0000;
    wide % 0x1_0000
}

fn pack_pair(lo: i32, hi: i32) -> (r: i32)
    ensures
        r == packed_pair(lo as int, hi as int),
{
    let u: i64 = half_word(lo) + 0x1_0000 * half_word(hi);
    if u >= 0x8000_0000 {
        (u - 0x1_0000_0000) as i32
    } else {
        u as i32
    }
}

impl Ui {
    /// Inspects a node; 0 for none. The frame around the node before glides to
    /// the new one.
    pub fn debug_inspect(&mut self, id: i32)
        requires
            old(self).wf(),
        ensures
            final(self).wf(),
            final(self)@ == (UiModel {
                inspector: Inspector {
                    id,
                    rect: None,
                    drawn: if id == 0 {
                        None
                    } else {
                        old(self)@.inspector.drawn
                    },
                    ..old(self)@.inspector
                },
                ..old(self)@
            }),
    {
        self.inspector.id = id;
        self.inspector.rect = None;
        if id == 0 {
            self.inspector.drawn = None;
        }
    }

    /// Left and top of the inspected node where it was last painted; -1 when
    /// it has not been.
    pub fn debug_rect_xy(&self) -> (r: i32)
        ensures
            r == (match self@.inspector.rect {
                Some(b) => packed_pair(b.x as int, b.y as int),
                None => -1,
            }),
    {
        match self.inspector.rect {
            Some(b) => pack_pair(b.x, b.y),
            None => -1,
        }
    }

    /// Width and height of the inspected node where it was last painted; -1
    /// when it has not been.
    pub fn debug_rect_wh(&self) -> (r: i32)
        ensures
            r == (match self@.inspector.rect {
                Some(b) => packed_pair(b.w as int, b.h as int),
                None => -1,
            }),
    {
        match self.inspector.rect {
            Some(b) => pack_pair(b.w, b.h),
            None => -1,
        }
    }

    /// Pauses the world or lets it go on.
    pub fn debug_pause(&mut self, on: bool)
        requires
            old(self).wf(),
        ensures
            final(self).wf(),
            final(self)@ == (UiModel {
                paused: on,
                step_pending: on && old(self)@.step_pending,
                ..old(self)@
            }),
    {
        self.paused = on;
        if !on {
            self.step_pending = false;
        }
    }

    /// Lets a paused world go on for one frame.
    pub fn debug_step(&mut self)
        requires
            old(self).wf(),
        ensures
            final(self).wf(),
            final(self)@ == (UiModel {
                step_pending: old(self)@.paused || old(self)@.step_pending,
                ..old(self)@
            }),
    {
        if self.paused {
            self.step_pending = true;
        }
    }

    pub fn debug_paused(&self) -> (r: bool)
        ensures
            r == self@.paused,
    {
        self.paused
    }
}

// ---- laws ---------------------------------------------------------------------------------------------

/// A paused world stands still, however many frames come.
pub proof fn law_paused_world_stands_still(m: UiModel, steps: Seq<TrackStep>)
    requires
        m.paused,
        !m.step_pending,
    ensures
        m.ticked(steps) == (UiModel { ticked: true, ..m }),
        m.ticked(steps).ticked(steps) == m.ticked(steps),
{
}

/// A step lets exactly one frame through.
pub proof fn law_step_is_one_frame(m: UiModel, a: Seq<TrackStep>, b: Seq<TrackStep>)
    requires
        m.paused,
    ensures
        ({
            let armed = UiModel { step_pending: true, ..m };
            let one = armed.ticked(a);
            &&& one.frame == counted(m.frame)
            &&& one.paused && !one.step_pending
            &&& one.ticked(b) == one
        }),
{
}

/// Once a frame was begun, paused or not, its rate stays.
pub proof fn law_frame_fixes_the_rate(m: UiModel, steps: Seq<TrackStep>)
    ensures
        m.ticked(steps).ticked,
        m.ticked(steps).rules.hz == m.rules.hz,
{
}

/// Painting is repeated at most once, and only the last pass is kept.
pub proof fn law_painting_settles(m: UiModel, first: Painted, second: Painted)
    requires
        first.text_stale,
    ensures
        ({
            let done = m.painted(first, false).painted(second, true);
            &&& done.inspector.drawn == second.drawn
            &&& done.scene == m.scene.dirtied()
        }),
{
}

/// Asking for the size that the surface has changes nothing.
pub proof fn law_same_viewport_changes_nothing(m: UiModel, size: (u32, u32))
    requires
        m.scene.layouts.main.viewport == size,
        !is_nan(size.0),
        !is_nan(size.1),
    ensures
        m.with_viewport(size) == m,
{
}

/// The pointer stops being drawn once its texture is released.
pub proof fn law_cursor_goes_with_its_texture(m: UiModel)
    requires
        m.table.wf(),
    ensures
        m.without_texture(m.cursor.tex as int).cursor_sprite() is None,
{
    crate::texture::law_release_makes_stale(m.table, m.cursor.tex as int);
}

/// The pointer is drawn with its texture, at its place and with its hot spot; in
/// the size it was given along each axis, or else in that of the texture.
pub proof fn law_pointer_is_drawn(m: UiModel)
    requires
        m.table.live(m.cursor.tex as int) is Some,
    ensures
        ({
            let t = m.table.live(m.cursor.tex as int)->0;
            let (w, h) = m.cursor.size;
            &&& m.cursor_sprite() matches Some(p) && p.tex == m.cursor.tex as u32 && p.pos
                == m.cursor.pos && p.hot == m.cursor.hot && (above_zero(w) ==> p.w
                == CursorSize::Given(w)) && (!above_zero(w) ==> p.w == CursorSize::Texels(t.w)) && (
            above_zero(h) ==> p.h == CursorSize::Given(h)) && (!above_zero(h) ==> p.h
                == CursorSize::Texels(t.h))
        }),
{
}

/// A frame that goes ahead is counted, and one that is held back is not.
pub proof fn law_frames_are_counted(m: UiModel, steps: Seq<TrackStep>)
    requires
        m.frame < u64::MAX,
    ensures
        !m.paused ==> m.ticked(steps).frame == m.frame + 1,
        m.paused && m.step_pending ==> m.ticked(steps).frame == m.frame + 1 && !m.ticked(
            steps,
        ).step_pending,
        m.paused && !m.step_pending ==> m.ticked(steps).frame == m.frame && m.ticked(steps).scene
            == m.scene,
        m.ticked(steps).paused == m.paused,
{
}

/// Painting tells the inspector where its node is, if there is one, and what was
/// drawn around it on the surface that was painted.
pub proof fn law_inspector_is_told(m: UiModel, p: Painted, again: bool)
    requires
        again || !p.text_stale,
    ensures
        ({
            let n = m.painted(p, again);
            let a = m.aux_painted(p, again);
            &&& n.inspector.drawn == p.drawn && n.inspector.aux_drawn == m.inspector.aux_drawn
            &&& m.inspector.id != 0 ==> n.inspector.rect == p.target
            &&& m.inspector.id == 0 ==> n.inspector.rect == m.inspector.rect
            &&& n.inspector.id == m.inspector.id
            &&& m.scene.layouts.aux is Some ==> a.inspector.aux_drawn == p.drawn
                && a.inspector.drawn == m.inspector.drawn && (p.target is Some ==> a.inspector.rect
                == p.target) && (p.target is None ==> a.inspector.rect == m.inspector.rect)
            &&& m.scene.layouts.aux is None ==> a == m
        }),
{
}

} // verus!
