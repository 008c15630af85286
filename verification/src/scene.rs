//! Nodes with their styles, animations and layout marks: what the operations
//! of a script change.
use crate::anim::{ended, Anims, Track};
use crate::constants::{NODE_SURFACE, NODE_VIEW, ROOT_ID};
use crate::style::{lookup, or_else, record_value, PropTable, StyleTable, Styled};
use crate::surface::{as_column, sized};
use crate::tree::{id_space, lemma_detached_wf, root_slot, Links, TreeModel};
use vstd::prelude::*;

verus! {

// ---- model --------------------------------------------------------------------------

/// A sprite: number of cells, columns of the grid, frames per cell, and the
/// frame it was started in. Without cells it is none.
#[derive(Clone, Copy)]
pub struct Sprite {
    pub frames: u16,
    pub cols: u16,
    pub step: u16,
    pub start: u64,
}

/// What a node holds. Values are listed by property.
#[verifier::ext_equal]
pub struct NodeModel {
    pub kind: u8,
    pub style_id: i32,
    pub initialized: bool,
    pub focused: bool,
    pub active: bool,
    pub overrides: Seq<Option<u32>>,
    pub anims: Seq<Option<u32>>,
    pub text: Seq<char>,
    pub tex: i32,
    pub sprite: Sprite,
    pub surface: i32,
    pub surface_focused: bool,
}

/// What waits for the layout of a surface.
#[verifier::ext_equal]
pub struct LayoutModel {
    /// The boxes have to be built anew.
    pub dirty: bool,
    /// Nodes whose box changes in place.
    pub restyle: Set<u32>,
    /// Bit patterns of the size.
    pub viewport: (u32, u32),
}

/// Layout of the main surface, and root and layout of the auxiliary one.
#[verifier::ext_equal]
pub struct LayoutsModel {
    pub main: LayoutModel,
    pub aux: Option<(i32, LayoutModel)>,
}

/// A baked animation that plays on a node.
#[derive(Clone, Copy)]
pub struct TimelineInst {
    pub alive: bool,
    pub node: i32,
    /// Number of the animation in the style table.
    pub anim: u16,
    /// Frames since the style was applied.
    pub clock: u32,
    /// Frames after which the clock starts over; 0 for never.
    pub loop_frames: u16,
}

/// What operations change.
#[verifier::ext_equal]
pub struct SceneModel {
    pub tree: TreeModel,
    pub nodes: Seq<NodeModel>,
    pub tracks: Seq<Track>,
    pub timelines: Seq<TimelineInst>,
    pub layouts: LayoutsModel,
    pub focused: i32,
}

/// The values of a list, by property.
pub open spec fn values(entries: Seq<(u8, u32)>) -> Seq<Option<u32>> {
    Seq::new(256, |p: int| lookup(entries, p as u8))
}

/// No value of any property.
pub open spec fn no_values() -> Seq<Option<u32>> {
    Seq::new(256, |p: int| None)
}

/// A sprite without cells.
pub open spec fn no_sprite() -> Sprite {
    Sprite { frames: 0, cols: 0, step: 0, start: 0 }
}

/// A new node.
pub open spec fn blank(kind: u8) -> NodeModel {
    NodeModel {
        kind,
        style_id: (-1) as i32,
        initialized: false,
        focused: false,
        active: false,
        overrides: no_values(),
        anims: no_values(),
        text: Seq::empty(),
        tex: (-1) as i32,
        sprite: no_sprite(),
        surface: (-1) as i32,
        surface_focused: false,
    }
}

impl LayoutModel {
    pub open spec fn dirtied(self) -> LayoutModel {
        LayoutModel { dirty: true, ..self }
    }

    pub open spec fn restyled(self, slot: int) -> LayoutModel {
        LayoutModel { restyle: self.restyle.insert(slot as u32), ..self }
    }

    /// Layout has to run.
    pub open spec fn pending(self) -> bool {
        self.dirty || !(self.restyle =~= Set::empty())
    }
}

impl LayoutsModel {
    pub open spec fn dirtied(self) -> LayoutsModel {
        LayoutsModel {
            main: self.main.dirtied(),
            aux: match self.aux {
                Some((root, l)) => Some((root, l.dirtied())),
                None => None,
            },
        }
    }

    pub open spec fn restyled(self, slot: int) -> LayoutsModel {
        LayoutsModel {
            main: self.main.restyled(slot),
            aux: match self.aux {
                Some((root, l)) => Some((root, l.restyled(slot))),
                None => None,
            },
        }
    }

    /// Root of the auxiliary surface; 0 for none.
    pub open spec fn aux_root(self) -> int {
        match self.aux {
            Some((root, _l)) => root as int,
            None => 0,
        }
    }
}

/// The value of a property of a node, as its style, what was set on it and its
/// animations make it.
pub open spec fn node_value(n: NodeModel, table: StyleTable, with_anims: bool, prop: u8) -> u32 {
    match or_else(
        if with_anims {
            n.anims[prop as int]
        } else {
            None
        },
        or_else(
            n.overrides[prop as int],
            record_value(table.record_of(n.style_id), n.focused, n.active, prop),
        ),
    ) {
        Some(v) => v,
        None => table.defaults@[prop as int],
    }
}

/// The values of all properties of a node.
pub open spec fn node_values(n: NodeModel, table: StyleTable, with_anims: bool) -> Seq<u32> {
    Seq::new(256, |p: int| node_value(n, table, with_anims, p as u8))
}

impl SceneModel {
    pub open spec fn with_node(self, s: int, n: NodeModel) -> SceneModel {
        SceneModel { nodes: self.nodes.update(s, n), ..self }
    }

    pub open spec fn dirtied(self) -> SceneModel {
        SceneModel { layouts: self.layouts.dirtied(), ..self }
    }

    pub open spec fn restyled(self, slot: int) -> SceneModel {
        SceneModel { layouts: self.layouts.restyled(slot), ..self }
    }

    pub open spec fn restyled_if(self, slot: int, yes: bool) -> SceneModel {
        if yes {
            self.restyled(slot)
        } else {
            self
        }
    }
}

// ---- data -------------------------------------------------------------------------------

/// A node.
pub struct Node {
    pub kind: u8,
    /// A style was applied before.
    pub initialized: bool,
    pub styled: Styled,
    pub text: String,
    /// Texture handle; -1 for none.
    pub tex: i32,
    pub sprite: Sprite,
    /// Composited surface; -1 for none.
    pub surface: i32,
    pub surface_focused: bool,
}

impl View for Node {
    type V = NodeModel;

    open spec fn view(&self) -> NodeModel {
        NodeModel {
            kind: self.kind,
            style_id: self.styled.style_id,
            initialized: self.initialized,
            focused: self.styled.focused,
            active: self.styled.active,
            overrides: values(self.styled.overrides@),
            anims: values(self.styled.anim_values@),
            text: self.text@,
            tex: self.tex,
            sprite: self.sprite,
            surface: self.surface,
            surface_focused: self.surface_focused,
        }
    }
}

impl Node {
    pub fn new(kind: u8) -> (n: Node)
        ensures
            n@ == blank(kind),
    {
        let n = Node {
            kind,
            initialized: false,
            styled: Styled {
                style_id: -1,
                focused: false,
                active: false,
                overrides: Vec::new(),
                anim_values: Vec::new(),
            },
            text: String::new(),
            tex: -1,
            sprite: Sprite { frames: 0, cols: 0, step: 0, start: 0 },
            surface: -1,
            surface_focused: false,
        };
        proof {
            assert(n@.overrides =~= no_values());
            assert(n@.anims =~= no_values());
            assert(n@ =~= blank(kind));
        }
        n
    }

    /// Values set on the node and values of animations.
    pub fn put_override(&mut self, prop: u8, bits: u32)
        ensures
            final(self)@ == (NodeModel {
                overrides: old(self)@.overrides.update(prop as int, Some(bits)),
                ..old(self)@
            }),
    {
        crate::style::put_entry(&mut self.styled.overrides, prop, bits);
        proof {
            assert(self@.overrides =~= old(self)@.overrides.update(prop as int, Some(bits)));
            assert(self@.anims =~= old(self)@.anims);
        }
    }

    pub fn put_anim(&mut self, prop: u8, bits: u32)
        ensures
            final(self)@ == (NodeModel {
                anims: old(self)@.anims.update(prop as int, Some(bits)),
                ..old(self)@
            }),
    {
        crate::style::put_entry(&mut self.styled.anim_values, prop, bits);
        proof {
            assert(self@.anims =~= old(self)@.anims.update(prop as int, Some(bits)));
        }
    }

    pub fn remove_anim(&mut self, prop: u8)
        ensures
            final(self)@ == (NodeModel {
                anims: old(self)@.anims.update(prop as int, None),
                ..old(self)@
            }),
    {
        crate::style::remove_entry(&mut self.styled.anim_values, prop);
        proof {
            assert(self@.anims =~= old(self)@.anims.update(prop as int, None));
        }
    }

    pub fn find_anim(&self, prop: u8) -> (r: Option<u32>)
        ensures
            r == self@.anims[prop as int],
    {
        crate::style::find_entry(&self.styled.anim_values, prop)
    }

    /// The value of one property.
    pub fn value(&self, table: &StyleTable, with_anims: bool, prop: u8) -> (bits: u32)
        requires
            table.wf(),
        ensures
            bits == node_value(self@, *table, with_anims, prop),
    {
        self.styled.resolve_prop(table, with_anims, prop)
    }

    /// The values of all properties.
    pub fn resolve(&self, table: &StyleTable, with_anims: bool) -> (r: Vec<u32>)
        requires
            table.wf(),
        ensures
            r@ == node_values(self@, *table, with_anims),
    {
        let r = self.styled.resolve(table, with_anims);
        proof {
            assert forall|p: int| 0 <= p < 256 implies #[trigger] r@[p] == node_values(
                self@,
                *table,
                with_anims,
            )[p] by {
                let q = p as u8;
                assert(r@[q as int] == crate::style::value_of(self.styled, *table, with_anims, q));
            }
            assert(r@ =~= node_values(self@, *table, with_anims));
        }
        r
    }
}

/// What waits for the layout of a surface.
pub struct LayoutState {
    pub dirty: bool,
    pub restyle: Vec<u32>,
    pub viewport: (u32, u32),
}

impl View for LayoutState {
    type V = LayoutModel;

    open spec fn view(&self) -> LayoutModel {
        LayoutModel {
            dirty: self.dirty,
            restyle: self.restyle@.to_set(),
            viewport: self.viewport,
        }
    }
}

impl LayoutState {
    /// A surface of this size that has not been laid out.
    pub fn new(viewport: (u32, u32)) -> (l: LayoutState)
        ensures
            l@ == (LayoutModel { dirty: true, restyle: Set::empty(), viewport }),
    {
        let l = LayoutState { dirty: true, restyle: Vec::new(), viewport };
        proof {
            assert(l@.restyle =~= Set::empty());
        }
        l
    }

    pub fn mark_style(&mut self, slot: u32)
        ensures
            final(self)@ == old(self)@.restyled(slot as int),
    {
        let ghost before = self.restyle@;
        let mut i: usize = 0;
        while i < self.restyle.len()
            invariant
                self.restyle@ == before,
                self@ == old(self)@,
                i <= before.len(),
            decreases before.len() - i,
        {
            if self.restyle[i] == slot {
                proof {
                    assert(before.to_set().contains(before[i as int]));
                    assert(self@.restyle =~= old(self)@.restyled(slot as int).restyle);
                }
                return;
            }
            i = i + 1;
        }
        self.restyle.push(slot);
        proof {
            assert forall|x: u32| self.restyle@.to_set().contains(x) <==> before.to_set().insert(
                slot,
            ).contains(x) by {
                if before.contains(x) {
                    let j = choose|j: int| 0 <= j < before.len() && before[j] == x;
                    assert(self.restyle@[j] == x);
                }
                if x == slot {
                    assert(self.restyle@[before.len() as int] == x);
                }
                if self.restyle@.contains(x) {
                    let j = choose|j: int| 0 <= j < self.restyle@.len() && self.restyle@[j] == x;
                    if j < before.len() {
                        assert(before[j] == x);
                    }
                }
            }
            assert(self.restyle@.to_set() =~= before.to_set().insert(slot));
        }
    }

    /// Whether layout has to run.
    pub fn needs(&self) -> (r: bool)
        ensures
            r == self@.pending(),
    {
        proof {
            if self.restyle@.len() > 0 {
                assert(self.restyle@.to_set().contains(self.restyle@[0]));
            } else {
                assert(self.restyle@.to_set() =~= Set::empty());
            }
        }
        self.dirty || self.restyle.len() > 0
    }

    /// Layout has run.
    pub fn done(&mut self)
        ensures
            final(self)@ == (LayoutModel {
                dirty: false,
                restyle: Set::empty(),
                viewport: old(self)@.viewport,
            }),
    {
        self.dirty = false;
        self.restyle = Vec::new();
        proof {
            assert(self@.restyle =~= Set::empty());
        }
    }
}

/// The auxiliary surface.
pub struct AuxiliarySurface {
    pub root: i32,
    pub layout: LayoutState,
}

/// Layout of all surfaces.
pub struct Layouts {
    pub main: LayoutState,
    pub aux: Option<AuxiliarySurface>,
}

impl View for Layouts {
    type V = LayoutsModel;

    open spec fn view(&self) -> LayoutsModel {
        LayoutsModel {
            main: self.main@,
            aux: match self.aux {
                Some(a) => Some((a.root, a.layout@)),
                None => None,
            },
        }
    }
}

impl Layouts {
    /// Boxes of all surfaces have to be built anew.
    pub fn mark_layout_dirty(&mut self)
        ensures
            final(self)@ == old(self)@.dirtied(),
    {
        self.main.dirty = true;
        match &mut self.aux {
            Some(a) => {
                a.layout.dirty = true;
            },
            None => {},
        }
        proof {
            assert(self@ =~= old(self)@.dirtied());
        }
    }

    /// The box of a node changes in place.
    pub fn mark_layout_style(&mut self, slot: u32)
        ensures
            final(self)@ == old(self)@.restyled(slot as int),
    {
        self.main.mark_style(slot);
        match &mut self.aux {
            Some(a) => {
                a.layout.mark_style(slot);
            },
            None => {},
        }
        proof {
            assert(self@ =~= old(self)@.restyled(slot as int));
        }
    }

    pub fn auxiliary_surface_root(&self) -> (r: i32)
        ensures
            r == self@.aux_root(),
    {
        match &self.aux {
            Some(a) => a.root,
            None => 0,
        }
    }
}

// ---- the scene ----------------------------------------------------------------------------

/// The nodes and all that runs on them.
pub struct Scene {
    pub tree: Links,
    /// Contents of the slots of the tree.
    pub nodes: Vec<Node>,
    pub anims: Anims,
    pub timelines: Vec<TimelineInst>,
    pub layouts: Layouts,
    /// Id of the node that has the focus; 0 for none.
    pub focused: i32,
    pub styles: StyleTable,
    pub props: PropTable,
    /// Animation steps per second.
    pub tick_hz: u32,
}

pub open spec fn node_models(nodes: Seq<Node>) -> Seq<NodeModel> {
    Seq::new(nodes.len(), |i: int| nodes[i]@)
}

impl View for Scene {
    type V = SceneModel;

    open spec fn view(&self) -> SceneModel {
        SceneModel {
            tree: self.tree@,
            nodes: node_models(self.nodes@),
            tracks: self.anims.tracks@,
            timelines: self.timelines@,
            layouts: self.layouts@,
            focused: self.focused,
        }
    }
}

/// The root of the auxiliary surface is there, is not the main root, and has
/// no parent.
pub open spec fn aux_wf(m: SceneModel) -> bool {
    m.layouts.aux matches Some((root, _l)) ==> {
        &&& m.tree.resolves(root as int) is Some
        &&& m.tree.resolves(root as int)->0 != root_slot()
        &&& m.tree.links[m.tree.resolves(root as int)->0].parent is None
    }
}

impl Scene {
    pub open spec fn wf(self) -> bool {
        &&& self.tree.wf()
        &&& self.nodes@.len() == self.tree.slots@.len()
        &&& self.anims.wf()
        &&& self.styles.wf()
        &&& self.props.wf()
        &&& aux_wf(self@)
    }

    /// The tables that operations do not touch are the same.
    pub open spec fn same_tables(self, o: Scene) -> bool {
        self.styles == o.styles && self.props == o.props && self.tick_hz == o.tick_hz
    }

    /// A scene of just the root, a column that fills the viewport.
    pub fn new(props: PropTable, viewport: (u32, u32), tick_hz: u32) -> (s: Scene)
        requires
            props.wf(),
        ensures
            s.wf(),
            s.props == props,
            s.tick_hz == tick_hz,
            s.styles.records@.len() == 0,
            s.styles.anims@.len() == 0,
            forall|p: int| 0 <= p < 256 ==> #[trigger] s.styles.defaults@[p] == 0,
            s@.tree.links.len() == 2,
            s@.tree.links[1].children.len() == 0,
            s@.tree.free.len() == 0,
            s@.nodes =~= seq![
                blank(NODE_VIEW),
                as_column(sized(blank(NODE_VIEW), props, viewport), props),
            ],
            s@.tracks.len() == 1,
            s@.timelines.len() == 0,
            s@.layouts == (LayoutsModel {
                main: LayoutModel { dirty: true, restyle: Set::empty(), viewport },
                aux: None,
            }),
            s@.focused == 0,
    {
        let mut nodes: Vec<Node> = Vec::new();
        nodes.push(Node::new(NODE_VIEW));
        let mut root = Node::new(NODE_VIEW);
        root.put_override(props.width, viewport.0);
        root.put_override(props.height, viewport.1);
        root.put_override(props.flex_dir, props.flex_col);
        nodes.push(root);
        let s = Scene {
            tree: Links::new(),
            nodes,
            anims: Anims::new(),
            timelines: Vec::new(),
            layouts: Layouts { main: LayoutState::new(viewport), aux: None },
            focused: 0,
            styles: StyleTable::new(),
            props,
            tick_hz,
        };
        s
    }

    /// The scene after a node was created, and its slot.
    pub open spec fn created(m: SceneModel, kind: u8) -> Option<(SceneModel, int)> {
        match Links::alloced(m.tree) {
            None => None,
            Some((tree, s)) => Some(
                (
                    SceneModel {
                        tree,
                        nodes: if s < m.nodes.len() {
                            m.nodes.update(s, blank(kind))
                        } else {
                            m.nodes.push(blank(kind))
                        },
                        ..m
                    },
                    s,
                ),
            ),
        }
    }

    pub(crate) fn add_node(&mut self, kind: u8) -> (r: Option<u32>)
        requires
            old(self).wf(),
        ensures
            final(self).wf(),
            final(self).same_tables(*old(self)),
            r is Some <==> Scene::created(old(self)@, kind) is Some,
            r is None ==> *final(self) == *old(self),
            r matches Some(s) ==> (final(self)@, s as int) == Scene::created(old(self)@, kind)->0
                && s > 1 && s < final(self).nodes@.len(),
    {
        let ghost m = self@;
        match self.tree.take_slot() {
            None => None,
            Some(s) => {
                if (s as usize) < self.nodes.len() {
                    self.nodes.set(s as usize, Node::new(kind));
                } else {
                    self.nodes.push(Node::new(kind));
                }
                proof {
                    let (after, _s) = Scene::created(m, kind)->0;
                    assert(self@.nodes =~= after.nodes);
                    lemma_aux_alloced(m);
                }
                Some(s)
            },
        }
    }

    /// Creates a detached node and returns its id; 0 for a sort of node that
    /// does not exist, and when ids run out.
    pub fn create_node(&mut self, kind: u8) -> (id: i32)
        requires
            old(self).wf(),
        ensures
            final(self).wf(),
            final(self).same_tables(*old(self)),
            kind > NODE_SURFACE || Scene::created(old(self)@, kind) is None ==> id == 0
                && *final(self) == *old(self),
            kind <= NODE_SURFACE && Scene::created(old(self)@, kind) is Some ==> ({
                let (m, s) = Scene::created(old(self)@, kind)->0;
                final(self)@ == m && id == m.tree.id_of(s) && id > 0
            }),
    {
        if kind > NODE_SURFACE {
            return 0;
        }
        match self.add_node(kind) {
            None => 0,
            Some(s) => self.tree.id(s),
        }
    }

    /// The scene after the node that `child` names was moved. The root of the
    /// auxiliary surface does not move.
    pub open spec fn moved(m: SceneModel, parent: int, child: int, anchor: int) -> SceneModel {
        if child == m.layouts.aux_root() || m.tree.moved(parent, child, anchor) is None {
            m
        } else {
            (SceneModel { tree: m.tree.moved(parent, child, anchor)->0, ..m }).dirtied()
        }
    }

    /// Puts `child` under `parent` before `anchor`, or at the end for 0,
    /// taking it from where it was.
    pub fn insert_before(&mut self, parent: i32, child: i32, anchor: i32)
        requires
            old(self).wf(),
        ensures
            final(self).wf(),
            final(self).same_tables(*old(self)),
            final(self)@ == Scene::moved(old(self)@, parent as int, child as int, anchor as int),
    {
        let ghost m = self@;
        let ghost depth = self.tree.depth@;
        if child == self.layouts.auxiliary_surface_root() {
            return;
        }
        if self.tree.insert_before(parent, child, anchor) {
            self.layouts.mark_layout_dirty();
            proof {
                lemma_aux_moved(m, depth, self.tree@, parent as int, child as int, anchor as int);
            }
        }
    }

    /// The scene after the node that `child` names was taken from under
    /// `parent`.
    pub open spec fn removed(m: SceneModel, parent: int, child: int) -> SceneModel {
        match m.tree.removed(parent, child) {
            None => m,
            Some(tree) => (SceneModel { tree, ..m }).dirtied(),
        }
    }

    /// Takes `child` from under `parent` and keeps it.
    pub fn remove_child(&mut self, parent: i32, child: i32)
        requires
            old(self).wf(),
        ensures
            final(self).wf(),
            final(self).same_tables(*old(self)),
            final(self)@ == Scene::removed(old(self)@, parent as int, child as int),
    {
        let ghost m = self@;
        if self.tree.remove_child(parent, child) {
            self.layouts.mark_layout_dirty();
            proof {
                let c = m.tree.resolves(child as int)->0;
                assert(self@.layouts.aux matches Some((root, _l)) ==> m.layouts.aux is Some && (
                m.layouts.aux->0).0 == root);
            }
        }
    }
}

proof fn lemma_aux_alloced(m: SceneModel)
    requires
        m.tree.slots_wf(),
        aux_wf(m),
        Links::alloced(m.tree) is Some,
    ensures
        ({
            let (tree, _s) = Links::alloced(m.tree)->0;
            aux_wf(SceneModel { tree, ..m })
        }),
{
    let (tree, s) = Links::alloced(m.tree)->0;
    if m.tree.free.len() > 0 {
        assert(m.tree.free[m.tree.free.len() - 1] == s);
        assert(!m.tree.links[s].alive);
    }
}

proof fn lemma_aux_moved(
    m: SceneModel,
    depth: Seq<nat>,
    t: TreeModel,
    parent: int,
    child: int,
    anchor: int,
)
    requires
        m.tree.slots_wf(),
        m.tree.linked(depth),
        aux_wf(m),
        child != m.layouts.aux_root(),
        m.tree.moved(parent, child, anchor) == Some(t),
        t.slots_wf(),
    ensures
        aux_wf((SceneModel { tree: t, ..m }).dirtied()),
{
    let c = m.tree.resolves(child)->0;
    let p = m.tree.resolves(parent)->0;
    let after = (SceneModel { tree: t, ..m }).dirtied();
    let loose = m.tree.detached(c);
    lemma_detached_wf(m.tree, depth, c);
    assert(m.tree.links[c].parent is Some ==> m.tree.alive(m.tree.links[c].parent->0));
    if m.layouts.aux is Some {
        let (root, _l) = m.layouts.aux->0;
        let s = m.tree.resolves(root as int)->0;
        assert(after.layouts.aux is Some && (after.layouts.aux->0).0 == root);
        assert(child % id_space() == c && root as int % id_space() == s);
        if s == c {
            assert(child / id_space() == root as int / id_space());
            assert(child == root);
        }
        assert(loose.links[s].parent == m.tree.links[s].parent);
        assert(loose.alive(s) <==> m.tree.alive(s));
        assert(t.links.len() == loose.links.len());
        assert(t.links[s].parent == m.tree.links[s].parent);
        assert(t.links[s].alive && t.links[s].gen == m.tree.links[s].gen);
    }
}

// ---- destroying ---------------------------------------------------------------------------

/// `node` is the id of one of the slots of `list`.
pub open spec fn id_listed(tree: TreeModel, list: Seq<u32>, node: int) -> bool {
    exists|k: int| 0 <= k < list.len() && tree.id_of(#[trigger] list[k] as int) == node
}

/// The tracks with those on the listed nodes ended.
pub open spec fn without_listed(tracks: Seq<Track>, tree: TreeModel, list: Seq<u32>) -> Seq<Track> {
    Seq::new(
        tracks.len(),
        |i: int|
            if tracks[i].alive && id_listed(tree, list, tracks[i].node as int) {
                ended(tracks[i])
            } else {
                tracks[i]
            },
    )
}

impl SceneModel {
    /// A node can be destroyed: it is there and no root.
    pub open spec fn can_destroy(self, id: int) -> bool {
        id != ROOT_ID && id != self.layouts.aux_root() && self.tree.resolves(id) is Some
    }

    /// The node with the focus is `top` or below it.
    pub open spec fn focus_below(self, top: int) -> bool {
        self.focused != 0 && self.tree.resolves(self.focused as int) is Some && self.tree.below(
            top,
            self.tree.resolves(self.focused as int)->0,
        )
    }

    /// `n` is the scene after `top` and all below it were destroyed, `list`
    /// being their slots: their animations are over, and the focus is gone if
    /// it was there.
    pub open spec fn destroyed(self, top: int, list: Seq<u32>, n: SceneModel) -> bool {
        &&& self.tree.destroyed(top, list, n.tree)
        &&& n.nodes == self.nodes
        &&& n.tracks == without_listed(self.tracks, self.tree, list)
        &&& n.timelines == self.timelines
        &&& n.layouts == self.layouts.dirtied()
        &&& n.focused == (if self.focus_below(top) {
            0
        } else {
            self.focused
        })
    }
}

impl Scene {
    /// Destroys a node and all below it. Stale ids and roots are left alone.
    pub fn destroy_node(&mut self, id: i32)
        requires
            old(self).wf(),
        ensures
            final(self).wf(),
            final(self).same_tables(*old(self)),
            !old(self)@.can_destroy(id as int) ==> *final(self) == *old(self),
            old(self)@.can_destroy(id as int) ==> exists|list: Seq<u32>|
                #[trigger] old(self)@.destroyed(
                    old(self)@.tree.resolves(id as int)->0,
                    list,
                    final(self)@,
                ),
    {
        if id == ROOT_ID || id == self.layouts.auxiliary_surface_root() {
            return;
        }
        let top: u32 = match self.tree.resolve(id) {
            Some(s) => s,
            None => return,
        };
        let ghost m = self@;
        let ghost depth = self.tree.depth@;
        proof {
            assert(m.tree.links[1].gen == 0);
            assert(id as int % id_space() == top);
            assert(id as int / id_space() == m.tree.links[top as int].gen as int);
            assert(top != 1);
        }
        if self.focused != 0 {
            match self.tree.resolve(self.focused) {
                Some(f) => {
                    if self.tree.is_in_subtree(top, f) {
                        self.focused = 0;
                    }
                },
                None => {},
            }
        }
        proof {
            lemma_detached_wf(m.tree, depth, top as int);
        }
        self.tree.detach(top);
        let ghost loose = self.tree@;
        let list = self.tree.collect_subtree(top);
        let mut k: usize = 0;
        proof {
            assert(without_listed(m.tracks, m.tree, list@.take(0)) =~= m.tracks);
        }
        while k < list.len()
            invariant
                k <= list@.len(),
                self.tree.wf(),
                self.tree@ == loose,
                self.anims.wf(),
                loose.links.len() == m.tree.links.len(),
                forall|x: int|
                    0 <= x < m.tree.links.len() ==> (#[trigger] loose.links[x]).gen
                        == m.tree.links[x].gen,
                loose.lists_subtree(top as int, list@),
                self.anims.tracks@ == without_listed(m.tracks, m.tree, list@.take(k as int)),
                self.nodes == old(self).nodes,
                self.timelines == old(self).timelines,
                self.layouts == old(self).layouts,
                self.styles == old(self).styles,
                self.props == old(self).props,
                self.tick_hz == old(self).tick_hz,
                self.focused == (if m.focus_below(top as int) {
                    0
                } else {
                    m.focused
                }),
            decreases list@.len() - k,
        {
            let slot: u32 = list[k];
            let ghost before = self.anims.tracks@;
            proof {
                assert((list@[k as int] as int) < loose.links.len());
                assert(loose.links[slot as int].gen == m.tree.links[slot as int].gen);
            }
            let nid: i32 = self.tree.id(slot);
            self.anims.kill_node(nid);
            proof {
                let (a, b) = (list@.take(k as int), list@.take(k + 1));
                assert(nid == m.tree.id_of(slot as int));
                let want = without_listed(m.tracks, m.tree, b);
                assert forall|i: int| 0 <= i < m.tracks.len() implies #[trigger] want[i]
                    == self.anims.tracks@[i] by {
                    let node = m.tracks[i].node as int;
                    assert(id_listed(m.tree, b, node) <==> id_listed(m.tree, a, node) || node
                        == nid) by {
                        if id_listed(m.tree, a, node) {
                            let j = choose|j: int|
                                0 <= j < a.len() && m.tree.id_of(#[trigger] a[j] as int) == node;
                            assert(b[j] == a[j]);
                        }
                        if node == nid {
                            assert(b[k as int] == slot);
                        }
                        if id_listed(m.tree, b, node) {
                            let j = choose|j: int|
                                0 <= j < b.len() && m.tree.id_of(#[trigger] b[j] as int) == node;
                            if j < k {
                                assert(a[j] == b[j]);
                            }
                        }
                    }
                    assert(before[i] == without_listed(m.tracks, m.tree, a)[i]);
                }
                assert(self.anims.tracks@ =~= want);
            }
            k = k + 1;
        }
        proof {
            assert(list@.take(k as int) =~= list@);
            assert(loose.alive(top as int));
        }
        self.tree.release(top, &list);
        self.layouts.mark_layout_dirty();
        proof {
            let n = self@;
            assert(m.tree.destroyed(top as int, list@, n.tree));
            assert(m.destroyed(top as int, list@, n));
            if m.layouts.aux is Some {
                let (root, _l) = m.layouts.aux->0;
                let s = m.tree.resolves(root as int)->0;
                assert(root as int % id_space() == s);
                assert(s != top) by {
                    if s == top {
                        assert(root as int / id_space() == id as int / id_space());
                    }
                }
                crate::tree::lemma_detached_below(m.tree, depth, top as int, s);
                crate::tree::lemma_below_step(m.tree, top as int, s);
                assert(list@.contains(s as u32) <==> loose.alive(s) && loose.below(top as int, s));
                assert(n.tree.links[s] == loose.links[s]);
                assert(loose.links[s].parent is None);
                assert(loose.links[s].gen == m.tree.links[s].gen);
                assert(loose.alive(s));
            }
        }
    }
}

/// Destroying a node ends the animations on it and on everything below it and
/// on nothing else, and takes the focus away exactly if it was there.
pub proof fn law_destroy_ends_animations(
    m: SceneModel,
    depth: Seq<nat>,
    top: int,
    list: Seq<u32>,
    n: SceneModel,
    i: int,
    s: int,
)
    requires
        m.tree.slots_wf(),
        m.tree.linked(depth),
        m.tree.alive(top),
        top != root_slot(),
        m.destroyed(top, list, n),
        0 <= i < m.tracks.len(),
        m.tracks[i].alive,
        m.tree.resolves(m.tracks[i].node as int) == Some(s),
    ensures
        m.tree.below(top, s) <==> !n.tracks[i].alive,
        !m.tree.below(top, s) ==> n.tracks[i] == m.tracks[i],
        m.focus_below(top) ==> n.focused == 0,
        !m.focus_below(top) ==> n.focused == m.focused,
{
    let node = m.tracks[i].node as int;
    crate::tree::law_destroy_takes_the_subtree(m.tree, depth, top, list, n.tree, s);
    assert(node % id_space() == s && node / id_space() == m.tree.links[s].gen as int);
    if list.contains(s as u32) {
        let k = choose|k: int| 0 <= k < list.len() && list[k] == s as u32;
        assert(m.tree.id_of(list[k] as int) == node);
    }
    if id_listed(m.tree, list, node) {
        let k = choose|k: int|
            0 <= k < list.len() && m.tree.id_of(#[trigger] list[k] as int) == node;
        let d = m.tree.detached(top);
        lemma_detached_wf(m.tree, depth, top);
        assert((list[k] as int) < d.links.len());
        assert((m.tree.id_of(list[k] as int)) % id_space() == list[k] as int);
        assert(list[k] as int == s);
        assert(list.contains(s as u32));
    }
}

/// Every node can be destroyed but the roots of both surfaces; and every node can
/// be moved but the root of the auxiliary one, as far as the tree allows.
pub proof fn law_roots_are_protected(m: SceneModel, id: int, parent: int, anchor: int)
    ensures
        m.can_destroy(id) <==> m.tree.resolves(id) is Some && id != 1 && id != m.layouts.aux_root(),
        id == m.layouts.aux_root() ==> Scene::moved(m, parent, id, anchor) == m,
        id != m.layouts.aux_root() ==> (m.tree.moved(parent, id, anchor) matches Some(t)
            ==> Scene::moved(m, parent, id, anchor).tree == t),
        m.tree.moved(parent, id, anchor) is None ==> Scene::moved(m, parent, id, anchor) == m,
        m.layouts.aux is None ==> m.layouts.aux_root() == 0,
{
}

/// Both surfaces hear of a change, each until its own layout has run; and layout
/// has to run for as long as a change of the tree or of a node is not laid out.
pub proof fn law_changes_reach_both_surfaces(m: LayoutsModel, slot: u32)
    ensures
        m.dirtied().main.dirty && m.dirtied().main.pending(),
        m.restyled(slot as int).main.restyle.contains(slot),
        m.restyled(slot as int).main.pending(),
        m.restyled(slot as int).main.dirty == m.main.dirty,
        m.dirtied().main.viewport == m.main.viewport,
        m.aux matches Some((root, l)) ==> {
            &&& m.dirtied().aux matches Some((a, d)) && a == root && d.dirty && d.pending()
                && d.viewport == l.viewport && d.restyle == l.restyle
            &&& m.restyled(slot as int).aux matches Some((a, d)) && a == root && d.restyle.contains(
                slot,
            ) && d.pending() && d.dirty == l.dirty
        },
        m.aux is None ==> m.dirtied().aux is None && m.restyled(slot as int).aux is None,
        !m.main.dirty && m.main.restyle == Set::<u32>::empty() ==> !m.main.pending(),
{
}

} // verus!
