//! The auxiliary surface, and what images and composited surfaces show.
use crate::constants::{F32_COORD_MAX, F32_ONE, NODE_IMAGE, NODE_SURFACE, NODE_VIEW};
use crate::fbits::{clamp, clamped};
use crate::scene::{
    aux_wf, blank, AuxiliarySurface, LayoutModel, LayoutState, LayoutsModel, NodeModel, Scene,
    SceneModel, Sprite,
};
use crate::style::PropTable;
use crate::tree::id_space;
use vstd::prelude::*;

verus! {

// ---- the auxiliary surface ------------------------------------------------------------

/// A size that a surface can have.
pub open spec fn surface_size(width: u32, height: u32) -> (u32, u32) {
    (clamped(width, F32_ONE, F32_COORD_MAX), clamped(height, F32_ONE, F32_COORD_MAX))
}

/// A node of this size.
pub open spec fn sized(n: NodeModel, props: PropTable, size: (u32, u32)) -> NodeModel {
    NodeModel {
        overrides: n.overrides.update(props.width as int, Some(size.0)).update(
            props.height as int,
            Some(size.1),
        ),
        ..n
    }
}

/// A node that lays its children out in a column.
pub open spec fn as_column(n: NodeModel, props: PropTable) -> NodeModel {
    NodeModel {
        overrides: n.overrides.update(props.flex_dir as int, Some(props.flex_col)),
        ..n
    }
}

impl SceneModel {
    /// The scene after its auxiliary surface got this size, and the root of
    /// the surface. It is made where there was none; 0 when ids run out.
    pub open spec fn with_auxiliary(self, props: PropTable, size: (u32, u32)) -> (SceneModel, int) {
        match self.layouts.aux {
            Some((root, l)) => {
                let s = self.tree.resolves(root as int)->0;
                let layouts = LayoutsModel {
                    aux: Some((root, LayoutModel { viewport: size, dirty: true, ..l })),
                    ..self.layouts
                };
                (
                    (SceneModel { layouts, ..self }).with_node(
                        s,
                        sized(self.nodes[s], props, size),
                    ),
                    root as int,
                )
            },
            None => match Scene::created(self, NODE_VIEW) {
                None => (self, 0),
                Some((m, s)) => {
                    let id = m.tree.id_of(s);
                    let fresh = LayoutModel { dirty: true, restyle: Set::empty(), viewport: size };
                    let layouts = LayoutsModel { aux: Some((id as i32, fresh)), ..m.layouts };
                    (
                        (SceneModel { layouts, ..m }).with_node(
                            s,
                            as_column(sized(blank(NODE_VIEW), props, size), props),
                        ),
                        id,
                    )
                },
            },
        }
    }
}

impl Scene {
    /// Makes the auxiliary surface, or gives it another size, and returns its
    /// root; 0 when ids run out. Nodes can be put under the root, but it
    /// cannot be moved or destroyed.
    pub fn create_auxiliary_surface(&mut self, width: u32, height: u32) -> (root: i32)
        requires
            old(self).wf(),
        ensures
            final(self).wf(),
            final(self).same_tables(*old(self)),
            (final(self)@, root as int) == old(self)@.with_auxiliary(
                old(self).props,
                surface_size(width, height),
            ),
    {
        let w: u32 = clamp(width, F32_ONE, F32_COORD_MAX);
        let h: u32 = clamp(height, F32_ONE, F32_COORD_MAX);
        let ghost m = self@;
        let ghost size = surface_size(width, height);
        let (pw, ph, pd, col): (u8, u8, u8, u32) = (
            self.props.width,
            self.props.height,
            self.props.flex_dir,
            self.props.flex_col,
        );
        if self.layouts.aux.is_some() {
            let root: i32 = self.layouts.auxiliary_surface_root();
            match &mut self.layouts.aux {
                Some(a) => {
                    a.layout.viewport = (w, h);
                    a.layout.dirty = true;
                },
                None => {},
            }
            match self.tree.resolve(root) {
                Some(s) => {
                    self.nodes[s as usize].put_override(pw, w);
                    self.nodes[s as usize].put_override(ph, h);
                    proof {
                        let (want, _r) = m.with_auxiliary(self.props, size);
                        assert(self@.nodes =~= want.nodes);
                        assert(self@.layouts =~= want.layouts);
                        assert(self@ =~= want);
                    }
                },
                None => {},
            }
            return root;
        }
        match self.add_node(NODE_VIEW) {
            None => 0,
            Some(s) => {
                let root: i32 = self.tree.id(s);
                proof {
                    assert(s as int <= m.nodes.len());
                    assert(self@.nodes[s as int] == blank(NODE_VIEW));
                }
                self.nodes[s as usize].put_override(pw, w);
                self.nodes[s as usize].put_override(ph, h);
                self.nodes[s as usize].put_override(pd, col);
                self.layouts.aux = Some(
                    AuxiliarySurface { root, layout: LayoutState::new((w, h)) },
                );
                proof {
                    let (want, id) = m.with_auxiliary(self.props, size);
                    assert(id == root);
                    assert(self@.nodes =~= want.nodes);
                    assert(self@.layouts =~= want.layouts);
                    assert(self@ =~= want);
                    assert(root as int % id_space() == s && root as int / id_space()
                        == self@.tree.links[s as int].gen as int);
                    assert(aux_wf(self@));
                }
                root
            },
        }
    }

    pub fn auxiliary_surface_root(&self) -> (root: i32)
        ensures
            root == self@.layouts.aux_root(),
    {
        self.layouts.auxiliary_surface_root()
    }

    /// Size of the auxiliary surface.
    pub fn auxiliary_viewport(&self) -> (r: Option<(u32, u32)>)
        ensures
            r == (match self@.layouts.aux {
                Some((_root, l)) => Some(l.viewport),
                None => None,
            }),
    {
        match &self.layouts.aux {
            Some(a) => Some(a.layout.viewport),
            None => None,
        }
    }
}

/// Asking for the auxiliary surface twice gives the same root, and the size
/// last asked for.
pub proof fn law_auxiliary_root_stays(m: SceneModel, props: PropTable, a: (u32, u32), b: (u32, u32))
    requires
        m.with_auxiliary(props, a).1 > 0,
        m.with_auxiliary(props, a).1 <= i32::MAX,
    ensures
        ({
            let (m1, root) = m.with_auxiliary(props, a);
            let (m2, again) = m1.with_auxiliary(props, b);
            &&& again == root
            &&& m2.layouts.aux_root() == root
            &&& m2.layouts.aux matches Some((_r, l)) && l.viewport == b && l.dirty
            &&& m2.tree == m1.tree
        }),
{
}

/// The root of the auxiliary surface is not moved and not destroyed.
pub proof fn law_auxiliary_root_is_protected(m: SceneModel, parent: int, anchor: int)
    ensures
        Scene::moved(m, parent, m.layouts.aux_root(), anchor) == m,
        !m.can_destroy(m.layouts.aux_root()),
{
}

// ---- what nodes show --------------------------------------------------------------------

impl SceneModel {
    /// The scene after a texture was bound to an image; a handle below 0
    /// takes it away. `known` says whether the handle is one of a texture.
    pub open spec fn with_image(self, id: int, tex: i32, known: bool) -> SceneModel {
        match self.tree.resolves(id) {
            Some(s) if (tex < 0 || known) && self.nodes[s].kind == NODE_IMAGE => self.with_node(
                s,
                NodeModel {
                    tex: if tex < 0 {
                        (-1) as i32
                    } else {
                        tex
                    },
                    sprite: Sprite { frames: 0, ..self.nodes[s].sprite },
                    ..self.nodes[s]
                },
            ),
            _ => self,
        }
    }

    /// The scene after a sprite was bound to an image in frame `now`; no
    /// cells or a handle below 0 take it away.
    pub open spec fn with_sprite(
        self,
        id: int,
        atlas: i32,
        known: bool,
        frames: u32,
        cols: u32,
        step: u32,
        now: u64,
    ) -> SceneModel {
        match self.tree.resolves(id) {
            Some(s) if (atlas < 0 || known) && self.nodes[s].kind == NODE_IMAGE => {
                let n = self.nodes[s];
                if frames == 0 || atlas < 0 {
                    self.with_node(
                        s,
                        NodeModel {
                            tex: (-1) as i32,
                            sprite: Sprite { frames: 0, ..n.sprite },
                            ..n
                        },
                    )
                } else {
                    self.with_node(
                        s,
                        NodeModel {
                            tex: atlas,
                            sprite: Sprite {
                                frames: within(frames, 0),
                                cols: within(cols, 1),
                                step: within(step, 1),
                                start: now,
                            },
                            ..n
                        },
                    )
                }
            },
            _ => self,
        }
    }

    /// The scene after a composited surface was bound to a node.
    pub open spec fn with_surface(self, id: int, surface: i32, focused: bool) -> SceneModel {
        match self.tree.resolves(id) {
            Some(s) if self.nodes[s].kind == NODE_SURFACE => self.with_node(
                s,
                NodeModel {
                    surface: if surface < -1 {
                        (-1) as i32
                    } else {
                        surface
                    },
                    surface_focused: focused,
                    ..self.nodes[s]
                },
            ),
            _ => self,
        }
    }

    /// Slot `s` holds a node with a composited surface.
    pub open spec fn binds_surface(self, s: int) -> bool {
        self.tree.links[s].alive && self.nodes[s].kind == NODE_SURFACE && self.nodes[s].surface >= 0
    }

    /// The composited surfaces of the first `n` slots.
    pub open spec fn bindings(self, n: int) -> Seq<(u32, bool)>
        decreases n,
    {
        if n <= 0 {
            Seq::empty()
        } else if self.binds_surface(n - 1) {
            self.bindings(n - 1).push(
                (self.nodes[n - 1].surface as u32, self.nodes[n - 1].surface_focused),
            )
        } else {
            self.bindings(n - 1)
        }
    }
}

/// A number brought between `low` and the largest of 16 bits.
pub open spec fn within(v: u32, low: u16) -> u16 {
    if v < low {
        low
    } else if v > 0xffff {
        0xffff
    } else {
        v as u16
    }
}

fn bring_within(v: u32, low: u16) -> (r: u16)
    ensures
        r == within(v, low),
{
    if v < low as u32 {
        low
    } else if v > 0xffff {
        0xffff
    } else {
        v as u16
    }
}

impl Scene {
    /// Binds a texture to an image. `known` says whether the handle is one of
    /// a texture.
    pub fn set_image(&mut self, id: i32, tex: i32, known: bool)
        requires
            old(self).wf(),
        ensures
            final(self).wf(),
            final(self).same_tables(*old(self)),
            final(self)@ == old(self)@.with_image(id as int, tex, known),
    {
        if tex >= 0 && !known {
            return;
        }
        let s: usize = match self.tree.resolve(id) {
            Some(s) => s as usize,
            None => return,
        };
        if self.nodes[s].kind == NODE_IMAGE {
            self.nodes[s].tex = if tex < 0 {
                -1
            } else {
                tex
            };
            self.nodes[s].sprite.frames = 0;
            proof {
                assert(self@.nodes =~= old(self)@.with_image(id as int, tex, known).nodes);
            }
        }
    }

    /// Binds a sprite to an image: an atlas of `frames` cells in `cols`
    /// columns, of which each is shown for `step` frames.
    pub fn set_sprite(
        &mut self,
        id: i32,
        atlas: i32,
        known: bool,
        frames: u32,
        cols: u32,
        step: u32,
        now: u64,
    )
        requires
            old(self).wf(),
        ensures
            final(self).wf(),
            final(self).same_tables(*old(self)),
            final(self)@ == old(self)@.with_sprite(
                id as int,
                atlas,
                known,
                frames,
                cols,
                step,
                now,
            ),
    {
        if atlas >= 0 && !known {
            return;
        }
        let s: usize = match self.tree.resolve(id) {
            Some(s) => s as usize,
            None => return,
        };
        if self.nodes[s].kind != NODE_IMAGE {
            return;
        }
        if frames == 0 || atlas < 0 {
            self.nodes[s].sprite.frames = 0;
            self.nodes[s].tex = -1;
        } else {
            self.nodes[s].tex = atlas;
            self.nodes[s].sprite = Sprite {
                frames: bring_within(frames, 0),
                cols: bring_within(cols, 1),
                step: bring_within(step, 1),
                start: now,
            };
        }
        proof {
            let want = old(self)@.with_sprite(id as int, atlas, known, frames, cols, step, now);
            assert(self@.nodes =~= want.nodes);
        }
    }

    /// Binds a composited surface to a node; one below 0 takes it away.
    pub fn set_compositor_surface(&mut self, id: i32, surface: i32, focused: bool)
        requires
            old(self).wf(),
        ensures
            final(self).wf(),
            final(self).same_tables(*old(self)),
            final(self)@ == old(self)@.with_surface(id as int, surface, focused),
    {
        let s: usize = match self.tree.resolve(id) {
            Some(s) => s as usize,
            None => return,
        };
        if self.nodes[s].kind != NODE_SURFACE {
            return;
        }
        self.nodes[s].surface = if surface < -1 {
            -1
        } else {
            surface
        };
        self.nodes[s].surface_focused = focused;
        proof {
            let want = old(self)@.with_surface(id as int, surface, focused);
            assert(self@.nodes =~= want.nodes);
        }
    }

    /// All composited surfaces that nodes hold, shown or not.
    pub fn compositor_surface_bindings(&self) -> (r: Vec<(u32, bool)>)
        requires
            self.wf(),
        ensures
            r@ == self@.bindings(self@.nodes.len() as int),
    {
        let mut r: Vec<(u32, bool)> = Vec::new();
        let mut s: usize = 0;
        while s < self.nodes.len()
            invariant
                self.wf(),
                s <= self.nodes@.len(),
                r@ == self@.bindings(s as int),
            decreases self.nodes@.len() - s,
        {
            let n = &self.nodes[s];
            if self.tree.slots[s].alive && n.kind == NODE_SURFACE && n.surface >= 0 {
                r.push((n.surface as u32, n.surface_focused));
            }
            s = s + 1;
        }
        r
    }
}

/// Numbers of a sprite are cut to 16 bits, and columns and steps are at least 1.
pub proof fn law_sprite_numbers(v: u32)
    ensures
        within(v, 0) == (if v <= 0xffff {
            v as int
        } else {
            0xffff
        }),
        within(v, 1) == (if v == 0 {
            1
        } else if v <= 0xffff {
            v as int
        } else {
            0xffff
        }),
{
}

/// Pictures and surfaces are bound to nodes of their kind only.
pub proof fn law_bindings_need_their_kind(
    m: SceneModel,
    id: int,
    s: int,
    handle: i32,
    known: bool,
    frames: u32,
    cols: u32,
    step: u32,
    now: u64,
    on: bool,
)
    requires
        m.tree.resolves(id) == Some(s),
    ensures
        m.nodes[s].kind != 2 ==> m.with_image(id, handle, known) == m && m.with_sprite(
            id,
            handle,
            known,
            frames,
            cols,
            step,
            now,
        ) == m,
        m.nodes[s].kind != 3 ==> m.with_surface(id, handle, on) == m,
{
}

/// A surface measures what it is asked to, but at least one pixel and at most as
/// much as coordinates hold.
pub proof fn law_surface_size(width: u32, height: u32)
    ensures
        0x3f80_0000 <= width <= 0x46fa_0000 && 0x3f80_0000 <= height <= 0x46fa_0000
            ==> surface_size(width, height) == (width, height),
        width < 0x3f80_0000 ==> surface_size(width, height).0 == 0x3f80_0000,
        height < 0x3f80_0000 ==> surface_size(width, height).1 == 0x3f80_0000,
        0x46fa_0000 < width <= 0x7f80_0000 ==> surface_size(width, height).0 == 0x46fa_0000,
        0x46fa_0000 < height <= 0x7f80_0000 ==> surface_size(width, height).1 == 0x46fa_0000,
{
}

} // verus!
