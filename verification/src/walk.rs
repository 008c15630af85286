//! Walks over the tree: inline text, painting order and hits.
use crate::constants::{NODE_TEXT, ROOT_ID};
use crate::fbits::{below_zero, finite, is_finite, negative};
use crate::order::{is_stable_order, law_sorted_is_stable, stable_order, stable_sorted};
use crate::paint::{claims, claims_hit, Ink};
use crate::restyle::Rules;
use crate::scene::{node_value, NodeModel, Scene, SceneModel};
use crate::tree::TreeModel;
use vstd::prelude::*;

verus! {

// ---- how far down it goes -----------------------------------------------------------------

/// The largest of some numbers.
pub open spec fn deepest(depth: Seq<nat>) -> nat
    decreases depth.len(),
{
    if depth.len() == 0 {
        0
    } else {
        let d = deepest(depth.drop_last());
        if depth.last() > d {
            depth.last()
        } else {
            d
        }
    }
}

proof fn lemma_deepest(depth: Seq<nat>, s: int)
    requires
        0 <= s < depth.len(),
    ensures
        depth[s] <= deepest(depth),
    decreases depth.len(),
{
    if s < depth.len() - 1 {
        lemma_deepest(depth.drop_last(), s);
        assert(depth.drop_last()[s] == depth[s]);
    }
}

impl TreeModel {
    /// Some depth of every node.
    pub open spec fn some_depth(self) -> Seq<nat> {
        choose|depth: Seq<nat>| self.linked(depth)
    }

    /// Parents and children agree and there is no cycle.
    pub open spec fn is_tree(self) -> bool {
        self.linked(self.some_depth())
    }

    /// A bound on how far below `s` the tree goes.
    pub open spec fn height(self, s: int) -> int {
        deepest(self.some_depth()) - self.some_depth()[s]
    }
}

pub proof fn lemma_child_is_lower(t: TreeModel, s: int, k: int)
    requires
        t.is_tree(),
        t.alive(s),
        0 <= k < t.links[s].children.len(),
    ensures
        t.alive(t.links[s].children[k] as int),
        t.links[t.links[s].children[k] as int].parent == Some(s),
        0 <= t.height(t.links[s].children[k] as int) < t.height(s),
{
    let c = t.links[s].children[k] as int;
    assert(t.alive(c) && t.links[c].parent == Some(s));
    lemma_deepest(t.some_depth(), c);
}

// ---- inline text --------------------------------------------------------------------------

impl SceneModel {
    /// The text of a node, and that of the text nodes below it that it is
    /// joined to by text nodes, in document order.
    pub open spec fn run_of(self, s: int) -> Seq<char>
        decreases self.tree.height(s), 1nat, 0int,
    {
        if self.tree.is_tree() && self.tree.alive(s) {
            self.nodes[s].text + self.runs_of(s, self.tree.links[s].children.len() as int)
        } else {
            Seq::empty()
        }
    }

    /// The text of the first `k` children.
    pub open spec fn runs_of(self, s: int, k: int) -> Seq<char>
        decreases self.tree.height(s), 0nat, k,
    {
        if self.tree.is_tree() && self.tree.alive(s) && 0 < k <= self.tree.links[s].children.len() {
            let c = self.tree.links[s].children[k - 1] as int;
            proof {
                lemma_child_is_lower(self.tree, s, k - 1);
            }
            self.runs_of(s, k - 1) + (if self.nodes[c].kind == NODE_TEXT {
                self.run_of(c)
            } else {
                Seq::empty()
            })
        } else {
            Seq::empty()
        }
    }

    /// The text node whose run a text node is part of: the topmost one that
    /// text nodes join it to.
    pub open spec fn text_root(self, s: int) -> int
        decreases self.tree.some_depth()[s],
    {
        match self.tree.links[s].parent {
            Some(p) if self.tree.is_tree() && self.tree.alive(s) && self.nodes[p].kind == NODE_TEXT => {
                self.text_root(p)
            },
            _ => s,
        }
    }
}

impl Scene {
    /// Adds the run of a node to `out`.
    fn collect_run(&self, s: u32, out: &mut String)
        requires
            self.wf(),
            self@.tree.is_tree(),
            self@.tree.alive(s as int),
        ensures
            final(out)@ == old(out)@ + self@.run_of(s as int),
        decreases self@.tree.height(s as int),
    {
        let n = &self.nodes[s as usize];
        out.append(n.text.as_str());
        let kids = &self.tree.slots[s as usize].children;
        let ghost m = self@;
        let ghost start = out@;
        proof {
            assert(m.tree.links[s as int] == self.tree.slots@[s as int]@);
            assert(m.runs_of(s as int, 0) =~= Seq::empty());
            assert(out@ =~= start + m.runs_of(s as int, 0));
        }
        let mut k: usize = 0;
        while k < kids.len()
            invariant
                self.wf(),
                m == self@,
                m.tree.is_tree(),
                m.tree.alive(s as int),
                kids@ == m.tree.links[s as int].children,
                k <= kids@.len(),
                out@ == start + m.runs_of(s as int, k as int),
            decreases kids@.len() - k,
        {
            let c: u32 = kids[k];
            proof {
                lemma_child_is_lower(m.tree, s as int, k as int);
            }
            let ghost before = out@;
            if self.nodes[c as usize].kind == NODE_TEXT {
                self.collect_run(c, out);
            }
            proof {
                assert(m.nodes[c as int] == self.nodes@[c as int]@);
                assert(out@ =~= start + m.runs_of(s as int, k + 1));
            }
            k = k + 1;
        }
        proof {
            assert(out@ =~= old(out)@ + m.run_of(s as int));
        }
    }

    /// The run of a node.
    pub fn run_text(&self, s: u32) -> (run: String)
        requires
            self.wf(),
            self@.tree.alive(s as int),
        ensures
            run@ == self@.run_of(s as int),
    {
        proof {
            assert(self@.tree.linked(self.tree.depth@));
        }
        let mut run = String::new();
        self.collect_run(s, &mut run);
        proof {
            assert(run@ =~= self@.run_of(s as int));
        }
        run
    }

    /// The text node whose run a text node is part of.
    fn text_layout_root(&self, s: u32) -> (root: u32)
        requires
            self.wf(),
            self@.tree.alive(s as int),
        ensures
            root == self@.text_root(s as int),
            self@.tree.alive(root as int),
    {
        let ghost m = self@;
        let mut at: u32 = s;
        proof {
            assert(m.tree.linked(self.tree.depth@));
        }
        let mut more: bool = true;
        while more
            invariant
                self.wf(),
                m == self@,
                m.tree.is_tree(),
                m.tree.alive(at as int),
                m.text_root(at as int) == m.text_root(s as int),
                !more ==> m.text_root(at as int) == at,
            decreases m.tree.some_depth()[at as int] + (if more {
                1nat
            } else {
                0
            }),
        {
            proof {
                assert(m.tree.links[at as int] == self.tree.slots@[at as int]@);
            }
            match self.tree.slots[at as usize].parent {
                Some(p) => {
                    proof {
                        assert(m.tree.links[at as int].parent == Some(p as int));
                        assert(m.tree.alive(p as int));
                        assert(m.nodes[p as int] == self.nodes@[p as int]@);
                    }
                    if self.nodes[p as usize].kind == NODE_TEXT {
                        at = p;
                    } else {
                        more = false;
                    }
                },
                None => {
                    more = false;
                },
            }
        }
        at
    }
}

impl SceneModel {
    /// Width and height of a node are given, so that what is in it does not
    /// move boxes.
    pub open spec fn fixed_size(self, r: Rules, s: int) -> bool {
        let w = node_value(self.nodes[s], r.styles, true, r.props.width);
        let h = node_value(self.nodes[s], r.styles, true, r.props.height);
        is_finite(w) && !below_zero(w) && is_finite(h) && !below_zero(h)
    }

    /// The scene after the text of the node in slot `s` changed. A run that
    /// becomes empty, or ceases to be, changes which boxes there are; another
    /// change moves boxes unless the size of the run is fixed.
    pub open spec fn with_text(self, r: Rules, s: int, text: Seq<char>) -> SceneModel {
        if self.nodes[s].kind != NODE_TEXT || self.nodes[s].text == text {
            self
        } else {
            let root = self.text_root(s);
            let m = self.with_node(s, NodeModel { text, ..self.nodes[s] });
            let was_empty = self.run_of(root).len() == 0;
            let is_empty = m.run_of(root).len() == 0;
            if was_empty != is_empty {
                m.dirtied()
            } else if !is_empty && !m.fixed_size(r, root) {
                m.restyled(root)
            } else {
                m
            }
        }
    }
}

impl Scene {
    fn has_fixed_size(&self, s: u32) -> (b: bool)
        requires
            self.wf(),
            s < self.nodes@.len(),
        ensures
            b == self@.fixed_size(self.rules(), s as int),
    {
        let n = &self.nodes[s as usize];
        let w: u32 = n.value(&self.styles, true, self.props.width);
        let h: u32 = n.value(&self.styles, true, self.props.height);
        finite(w) && !negative(w) && finite(h) && !negative(h)
    }

    /// Sets the text of a text node.
    pub fn set_text(&mut self, id: i32, text: &str)
        requires
            old(self).wf(),
        ensures
            final(self).wf(),
            final(self).same_tables(*old(self)),
            final(self)@ == (match old(self)@.tree.resolves(id as int) {
                Some(s) => old(self)@.with_text(old(self).rules(), s, text@),
                None => old(self)@,
            }),
    {
        let slot: u32 = match self.tree.resolve(id) {
            Some(s) => s,
            None => return,
        };
        let s: usize = slot as usize;
        let ghost m = self@;
        let new_text: String = text.to_owned();
        if self.nodes[s].kind != NODE_TEXT || self.nodes[s].text == new_text {
            return;
        }
        let root: u32 = self.text_layout_root(slot);
        let was_empty: bool = is_empty_text(&self.run_text(root));
        self.nodes[s].text = new_text;
        proof {
            let m1 = m.with_node(s as int, NodeModel { text: text@, ..m.nodes[s as int] });
            assert(self@.nodes =~= m1.nodes);
            assert(self@ =~= m1);
        }
        let is_empty: bool = is_empty_text(&self.run_text(root));
        if was_empty != is_empty {
            self.layouts.mark_layout_dirty();
        } else if !is_empty && !self.has_fixed_size(root) {
            self.layouts.mark_layout_style(root);
        }
    }

    /// Sets the text of a text node.
    pub fn replace_text(&mut self, id: i32, text: &str)
        requires
            old(self).wf(),
        ensures
            final(self).wf(),
            final(self).same_tables(*old(self)),
            final(self)@ == (match old(self)@.tree.resolves(id as int) {
                Some(s) => old(self)@.with_text(old(self).rules(), s, text@),
                None => old(self)@,
            }),
    {
        self.set_text(id, text);
    }
}

fn is_empty_text(text: &String) -> (b: bool)
    ensures
        b == (text@.len() == 0),
{
    let empty: String = String::new();
    let b: bool = *text == empty;
    proof {
        if text@.len() == 0 {
            assert(text@ =~= empty@);
        }
    }
    b
}

/// Text of a run whose size is fixed is swapped without any layout work, as
/// long as the run does not become empty or cease to be.
pub proof fn law_fixed_text_needs_no_layout(m: SceneModel, r: Rules, s: int, text: Seq<char>)
    requires
        0 <= s < m.nodes.len(),
        0 <= m.text_root(s) < m.nodes.len(),
        m.fixed_size(r, m.text_root(s)),
        m.run_of(m.text_root(s)).len() > 0,
        m.with_node(s, NodeModel { text, ..m.nodes[s] }).run_of(m.text_root(s)).len() > 0,
    ensures
        m.with_text(r, s, text).layouts == m.layouts,
{
    let root = m.text_root(s);
    let after = m.with_node(s, NodeModel { text, ..m.nodes[s] });
    assert(root != s ==> after.nodes[root] == m.nodes[root]);
    assert(after.fixed_size(r, root));
}

// ---- painting order -------------------------------------------------------------------------

impl SceneModel {
    /// How far to the front a node is.
    pub open spec fn z_of(self, r: Rules, s: int) -> i64 {
        (node_value(self.nodes[s], r.styles, true, r.props.z_index) as i32) as i64
    }

    pub open spec fn z_keys(self, r: Rules, s: int) -> Seq<i64> {
        let kids = self.tree.links[s].children;
        Seq::new(kids.len(), |k: int| self.z_of(r, kids[k] as int))
    }

    /// The children of a node in the order in which they are painted: by how
    /// far to the front they are, then in document order.
    pub open spec fn painted_children(self, r: Rules, s: int) -> Seq<u32> {
        let kids = self.tree.links[s].children;
        let order = stable_sorted(self.z_keys(r, s), kids.len() as int);
        Seq::new(kids.len(), |i: int| kids[order[i] as int])
    }
}

/// Every child is painted: one that is farther to the back comes first, and
/// of two that are equally far the first one in the document.
pub proof fn law_paint_order(m: SceneModel, r: Rules, s: int, i: int, j: int)
    requires
        0 <= s < m.tree.links.len(),
        m.tree.links[s].children.len() <= usize::MAX,
        0 <= i < j < m.tree.links[s].children.len(),
    ensures
        ({
            let kids = m.tree.links[s].children;
            let order = stable_sorted(m.z_keys(r, s), kids.len() as int);
            let painted = m.painted_children(r, s);
            let (a, b) = (order[i] as int, order[j] as int);
            &&& painted.len() == kids.len()
            &&& 0 <= a < kids.len() && 0 <= b < kids.len()
            &&& painted[i] == kids[a] && painted[j] == kids[b]
            &&& m.z_of(r, kids[a] as int) < m.z_of(r, kids[b] as int) || m.z_of(r, kids[a] as int)
                == m.z_of(r, kids[b] as int) && a < b
        }),
{
    let kids = m.tree.links[s].children;
    let keys = m.z_keys(r, s);
    law_sorted_is_stable(keys, kids.len() as int);
    let order = stable_sorted(keys, kids.len() as int);
    assert(crate::order::comes_before(keys, order[i] as int, order[j] as int));
}

impl Scene {
    /// The children of a node in painting order.
    pub fn children_in_paint_order(&self, s: u32) -> (r: Vec<u32>)
        requires
            self.wf(),
            self@.tree.alive(s as int),
        ensures
            r@ == self@.painted_children(self.rules(), s as int),
            r@.len() == self@.tree.links[s as int].children.len(),
            forall|i: int|
                0 <= i < r@.len() ==> self@.tree.links[s as int].children.contains(
                    #[trigger] r@[i],
                ),
    {
        let ghost m = self@;
        let kids = &self.tree.slots[s as usize].children;
        proof {
            assert(m.tree.links[s as int] == self.tree.slots@[s as int]@);
        }
        let mut keys: Vec<i64> = Vec::new();
        let mut k: usize = 0;
        let n: usize = kids.len();
        while k < n
            invariant
                self.wf(),
                m == self@,
                m.tree.alive(s as int),
                kids@ == m.tree.links[s as int].children,
                n == kids@.len(),
                k <= n,
                keys@ =~= m.z_keys(self.rules(), s as int).take(k as int),
            decreases n - k,
        {
            let c: u32 = kids[k];
            proof {
                assert(m.tree.linked(self.tree.depth@));
                assert(m.tree.alive(m.tree.links[s as int].children[k as int] as int));
                assert(m.nodes[c as int] == self.nodes@[c as int]@);
            }
            let bits: u32 = self.nodes[c as usize].value(&self.styles, true, self.props.z_index);
            keys.push((bits as i32) as i64);
            k = k + 1;
        }
        proof {
            assert(keys@ =~= m.z_keys(self.rules(), s as int));
        }
        let order = stable_order(keys.as_slice());
        let mut r: Vec<u32> = Vec::new();
        let mut i: usize = 0;
        while i < n
            invariant
                n == kids@.len(),
                i <= n,
                kids@ == m.tree.links[s as int].children,
                is_stable_order(keys@, n as int, order@),
                order@ == stable_sorted(m.z_keys(self.rules(), s as int), n as int),
                r@.len() == i,
                forall|j: int|
                    #![trigger r@[j]]
                    0 <= j < i ==> r@[j] == kids@[order@[j] as int] && (order@[j] as int) < n,
            decreases n - i,
        {
            let at: usize = order[i];
            r.push(kids[at]);
            i = i + 1;
        }
        proof {
            assert(r@ =~= m.painted_children(self.rules(), s as int));
        }
        r
    }
}

// ---- hits -------------------------------------------------------------------------------------

/// How a node lies to a point.
#[derive(Clone, Copy)]
pub struct HitFacts {
    /// The point is not clipped away, and the node is shown and not fully
    /// transparent.
    pub seen: bool,
    /// The point lies in the box of the node.
    pub inside: bool,
    /// Hits go through the node.
    pub passes: bool,
    pub bg: u32,
    pub grad_dir: u32,
    /// The point lies in the band that a visible border or bevel paints.
    pub in_band: bool,
    /// The node clips away what is below it at the point.
    pub cut: bool,
    /// What is below the node is seen in perspective.
    pub perspective: bool,
}

impl SceneModel {
    pub open spec fn has_variants(self, r: Rules, s: int) -> bool {
        r.styles.record_of(self.nodes[s].style_id) matches Some(rec) && (rec.focus@.len() > 0
            || rec.active@.len() > 0)
    }

    /// What a node paints at a point.
    pub open spec fn ink_at(self, r: Rules, s: int, f: HitFacts) -> Ink {
        Ink {
            node_type: self.nodes[s].kind,
            tex: self.nodes[s].tex,
            bg: f.bg,
            grad_dir: f.grad_dir,
            has_variants: self.has_variants(r, s),
            in_band: f.in_band,
        }
    }

    /// A node itself claims the point: by its box, or, if `ink`, by what it
    /// paints there. One seen in perspective claims its box.
    pub open spec fn claims_point(self, r: Rules, s: int, f: HitFacts, ink: bool) -> bool {
        f.inside && !f.passes && (!ink || claims(self.ink_at(r, s, f)) || self.nodes[s].kind
            != NODE_TEXT && !f.cut && f.perspective)
    }

    /// What is below the node is looked at.
    pub open spec fn opens(self, s: int, f: HitFacts) -> bool {
        self.nodes[s].kind != NODE_TEXT && !f.cut && !f.perspective
    }

    /// The slots that claim the point, in painting order: `s` and what is
    /// below it.
    pub open spec fn claimants(self, r: Rules, facts: Seq<HitFacts>, ink: bool, s: int) -> Seq<int>
        decreases self.tree.height(s), 1nat, 0int,
    {
        if !self.tree.is_tree() || !self.tree.alive(s) || !facts[s].seen {
            Seq::empty()
        } else {
            let own = if self.claims_point(r, s, facts[s], ink) {
                seq![s]
            } else {
                Seq::empty()
            };
            if self.opens(s, facts[s]) {
                own + self.claimants_below(
                    r,
                    facts,
                    ink,
                    s,
                    self.tree.links[s].children.len() as int,
                )
            } else {
                own
            }
        }
    }

    /// Those of the first `k` painted children.
    pub open spec fn claimants_below(
        self,
        r: Rules,
        facts: Seq<HitFacts>,
        ink: bool,
        s: int,
        k: int,
    ) -> Seq<int>
        decreases self.tree.height(s), 0nat, k,
    {
        if self.tree.is_tree() && self.tree.alive(s) && 0 < k <= self.tree.links[s].children.len()
            && self.tree.links[s].children.len() <= usize::MAX {
            let c = self.painted_children(r, s)[k - 1] as int;
            proof {
                lemma_painted_is_lower(self, r, s, k - 1);
            }
            self.claimants_below(r, facts, ink, s, k - 1) + self.claimants(r, facts, ink, c)
        } else {
            Seq::empty()
        }
    }

    /// The node that a point hits: the last one in painting order that claims
    /// it; 0 for none.
    pub open spec fn hit(self, r: Rules, facts: Seq<HitFacts>, ink: bool, root: int) -> int {
        match self.tree.resolves(root) {
            Some(s) => {
                let c = self.claimants(r, facts, ink, s);
                if c.len() > 0 {
                    self.tree.id_of(c.last())
                } else {
                    0
                }
            },
            None => 0,
        }
    }
}

pub proof fn lemma_painted_is_lower(m: SceneModel, r: Rules, s: int, k: int)
    requires
        m.tree.is_tree(),
        m.tree.alive(s),
        0 <= k < m.tree.links[s].children.len(),
        m.tree.links[s].children.len() <= usize::MAX,
    ensures
        m.tree.alive(m.painted_children(r, s)[k] as int),
        m.tree.links[m.painted_children(r, s)[k] as int].parent == Some(s),
        0 <= m.tree.height(m.painted_children(r, s)[k] as int) < m.tree.height(s),
{
    let kids = m.tree.links[s].children;
    law_sorted_is_stable(m.z_keys(r, s), kids.len() as int);
    let order = stable_sorted(m.z_keys(r, s), kids.len() as int);
    assert((order[k] as int) < kids.len());
    lemma_child_is_lower(m.tree, s, order[k] as int);
}

impl Scene {
    fn variants(&self, style_id: i32) -> (b: bool)
        ensures
            b == (self.styles.record_of(style_id) matches Some(rec) && (rec.focus@.len() > 0
                || rec.active@.len() > 0)),
    {
        if style_id >= 0 && (style_id as usize) < self.styles.records.len() {
            let rec = &self.styles.records[style_id as usize];
            rec.focus.len() > 0 || rec.active.len() > 0
        } else {
            false
        }
    }

    fn claims_here(&self, s: u32, f: HitFacts, ink: bool) -> (b: bool)
        requires
            self.wf(),
            s < self.nodes@.len(),
        ensures
            b == self@.claims_point(self.rules(), s as int, f, ink),
    {
        if !f.inside || f.passes {
            return false;
        }
        let n = &self.nodes[s as usize];
        let painted = Ink {
            node_type: n.kind,
            tex: n.tex,
            bg: f.bg,
            grad_dir: f.grad_dir,
            has_variants: self.variants(n.styled.style_id),
            in_band: f.in_band,
        };
        !ink || claims_hit(&painted) || n.kind != NODE_TEXT && !f.cut && f.perspective
    }

    /// The last node to claim the point, from `s` downwards; `hit` if there is
    /// none.
    fn hit_walk(&self, facts: &[HitFacts], ink: bool, s: u32, hit: i32) -> (r: i32)
        requires
            self.wf(),
            self@.tree.is_tree(),
            self@.tree.alive(s as int),
            facts@.len() == self.nodes@.len(),
        ensures
            ({
                let c = self@.claimants(self.rules(), facts@, ink, s as int);
                r == (if c.len() > 0 {
                    self@.tree.id_of(c.last())
                } else {
                    hit as int
                })
            }),
        decreases self@.tree.height(s as int),
    {
        let ghost m = self@;
        let f = facts[s as usize];
        if !f.seen {
            return hit;
        }
        let mut r: i32 = hit;
        if self.claims_here(s, f, ink) {
            r = self.tree.id(s);
        }
        if self.nodes[s as usize].kind == NODE_TEXT || f.cut || f.perspective {
            return r;
        }
        let kids = self.children_in_paint_order(s);
        let ghost own = if m.claims_point(self.rules(), s as int, f, ink) {
            seq![s as int]
        } else {
            Seq::<int>::empty()
        };
        let n: usize = kids.len();
        let mut k: usize = 0;
        proof {
            assert(own + m.claimants_below(self.rules(), facts@, ink, s as int, 0) =~= own);
        }
        while k < n
            invariant
                self.wf(),
                m == self@,
                m.tree.is_tree(),
                m.tree.alive(s as int),
                facts@.len() == self.nodes@.len(),
                n == kids@.len(),
                n == m.tree.links[s as int].children.len(),
                kids@ == m.painted_children(self.rules(), s as int),
                k <= n,
                ({
                    let c = own + m.claimants_below(self.rules(), facts@, ink, s as int, k as int);
                    r == (if c.len() > 0 {
                        m.tree.id_of(c.last())
                    } else {
                        hit as int
                    })
                }),
            decreases n - k,
        {
            let c: u32 = kids[k];
            proof {
                lemma_painted_is_lower(m, self.rules(), s as int, k as int);
            }
            r = self.hit_walk(facts, ink, c, r);
            proof {
                let a = m.claimants_below(self.rules(), facts@, ink, s as int, k as int);
                let b = m.claimants(self.rules(), facts@, ink, c as int);
                assert(m.claimants_below(self.rules(), facts@, ink, s as int, k + 1) == a + b);
                assert(own + (a + b) =~= (own + a) + b);
            }
            k = k + 1;
        }
        r
    }

    /// The node that a point hits under a root; 0 for none. Every node is
    /// given by how it lies to the point.
    pub fn hit_point(&self, facts: &[HitFacts], ink: bool, root: i32) -> (id: i32)
        requires
            self.wf(),
            facts@.len() == self.nodes@.len(),
        ensures
            id == self@.hit(self.rules(), facts@, ink, root as int),
    {
        proof {
            assert(self@.tree.linked(self.tree.depth@));
        }
        match self.tree.resolve(root) {
            Some(s) => self.hit_walk(facts, ink, s, 0),
            None => 0,
        }
    }

    /// The node painted at a point of the main surface.
    pub fn hit_test(&self, facts: &[HitFacts]) -> (id: i32)
        requires
            self.wf(),
            facts@.len() == self.nodes@.len(),
        ensures
            id == self@.hit(self.rules(), facts@, true, ROOT_ID as int),
    {
        self.hit_point(facts, true, ROOT_ID)
    }

    /// The node whose box is at a point of the main surface.
    pub fn hit_test_bounds(&self, facts: &[HitFacts]) -> (id: i32)
        requires
            self.wf(),
            facts@.len() == self.nodes@.len(),
        ensures
            id == self@.hit(self.rules(), facts@, false, ROOT_ID as int),
    {
        self.hit_point(facts, false, ROOT_ID)
    }

    /// The node painted at a point of the auxiliary surface; 0 without one.
    pub fn hit_test_auxiliary(&self, facts: &[HitFacts]) -> (id: i32)
        requires
            self.wf(),
            facts@.len() == self.nodes@.len(),
        ensures
            id == self@.hit(self.rules(), facts@, true, self@.layouts.aux_root()),
    {
        self.hit_point(facts, true, self.layouts.auxiliary_surface_root())
    }

    /// The node whose box is at a point of the auxiliary surface; 0 without
    /// one.
    pub fn hit_test_bounds_auxiliary(&self, facts: &[HitFacts]) -> (id: i32)
        requires
            self.wf(),
            facts@.len() == self.nodes@.len(),
        ensures
            id == self@.hit(self.rules(), facts@, false, self@.layouts.aux_root()),
    {
        self.hit_point(facts, false, self.layouts.auxiliary_surface_root())
    }
}

// ---- laws -------------------------------------------------------------------------------------

impl SceneModel {
    /// The node in slot `c` lies `n` steps below the one in slot `top`; all
    /// nodes on the way, both of them too, are seen, and those above `c` let
    /// what is below them be looked at.
    pub open spec fn seen_through(self, facts: Seq<HitFacts>, top: int, c: int, n: nat) -> bool {
        &&& self.tree.up(c, n) == Some(top)
        &&& forall|j: nat|
            j <= n ==> ((#[trigger] self.tree.up(c, j)) matches Some(a) && facts[a].seen && (j > 0
                ==> self.opens(a, facts[a])))
    }

    /// The node in slot `c` has the point in its box and does not let hits
    /// through, and it and all above it up to `top` are seen.
    pub open spec fn shows_at(self, facts: Seq<HitFacts>, top: int, c: int) -> bool {
        &&& self.tree.alive(c)
        &&& facts[c].inside && !facts[c].passes
        &&& exists|n: nat| #[trigger] self.seen_through(facts, top, c, n)
    }
}

/// Whatever claims a point has it in its box and does not let hits through, and
/// it and all nodes above it, up to the one that the search began at, are seen.
pub proof fn law_claimants_are_seen(
    m: SceneModel,
    r: Rules,
    facts: Seq<HitFacts>,
    ink: bool,
    s: int,
    i: int,
)
    requires
        0 <= i < m.claimants(r, facts, ink, s).len(),
    ensures
        m.shows_at(facts, s, m.claimants(r, facts, ink, s)[i]),
    decreases m.tree.height(s), 1nat, 0int,
{
    let own = if m.claims_point(r, s, facts[s], ink) {
        seq![s]
    } else {
        Seq::<int>::empty()
    };
    if i >= own.len() {
        lemma_claimants_below_are_seen(
            m,
            r,
            facts,
            ink,
            s,
            m.tree.links[s].children.len() as int,
            i - own.len(),
        );
    } else {
        assert(m.seen_through(facts, s, s, 0)) by {
            assert(m.tree.up(s, 0) == Some(s));
        }
    }
}

proof fn lemma_claimants_below_are_seen(
    m: SceneModel,
    r: Rules,
    facts: Seq<HitFacts>,
    ink: bool,
    s: int,
    k: int,
    i: int,
)
    requires
        facts[s].seen,
        m.opens(s, facts[s]),
        0 <= i < m.claimants_below(r, facts, ink, s, k).len(),
    ensures
        m.shows_at(facts, s, m.claimants_below(r, facts, ink, s, k)[i]),
    decreases m.tree.height(s), 0nat, k,
{
    lemma_painted_is_lower(m, r, s, k - 1);
    let kid = m.painted_children(r, s)[k - 1] as int;
    let a = m.claimants_below(r, facts, ink, s, k - 1);
    if i < a.len() {
        lemma_claimants_below_are_seen(m, r, facts, ink, s, k - 1, i);
    } else {
        law_claimants_are_seen(m, r, facts, ink, kid, i - a.len());
        let c = m.claimants(r, facts, ink, kid)[i - a.len()];
        assert(m.claimants_below(r, facts, ink, s, k)[i] == c);
        let n = choose|n: nat| #[trigger] m.seen_through(facts, kid, c, n);
        assert(m.tree.up(c, n) == Some(kid));
        assert(m.tree.up(c, n + 1) == Some(s));
        assert(m.seen_through(facts, s, c, n + 1)) by {
            assert forall|j: nat| j <= n + 1 implies ((#[trigger] m.tree.up(c, j)) matches Some(b)
                && facts[b].seen && (j > 0 ==> m.opens(b, facts[b]))) by {
                if j == n + 1 {
                    assert(m.tree.up(c, j) == Some(s));
                }
            }
        }
    }
}

/// What is hit is seen: a hit names a live node under the root that has the
/// point in its box and does not let hits through, and it and every node above
/// it up to the root are seen.
pub proof fn law_hit_is_seen(m: SceneModel, r: Rules, facts: Seq<HitFacts>, ink: bool, root: int)
    requires
        m.hit(r, facts, ink, root) != 0,
    ensures
        m.tree.resolves(root) is Some,
        exists|c: int| #[trigger]
            m.shows_at(facts, m.tree.resolves(root)->0, c) && m.hit(r, facts, ink, root)
                == m.tree.id_of(c),
{
    let top = m.tree.resolves(root)->0;
    let found = m.claimants(r, facts, ink, top);
    law_claimants_are_seen(m, r, facts, ink, top, found.len() - 1);
    assert(m.shows_at(facts, top, found.last()));
}

proof fn lemma_up_up(t: TreeModel, s: int, a: nat, b: nat)
    requires
        t.up(s, a) is Some,
    ensures
        t.up(s, a + b) == t.up(t.up(s, a)->0, b),
    decreases b,
{
    if b > 0 {
        lemma_up_up(t, s, a, (b - 1) as nat);
    }
}

/// Nothing under a node that is not seen is hit, nor is that node, whether hits
/// go by what is painted or by boxes: `a` is not seen and lies under the root,
/// and `c` is `a` or lies under it.
pub proof fn law_hidden_is_not_hit(
    m: SceneModel,
    r: Rules,
    facts: Seq<HitFacts>,
    ink: bool,
    root: int,
    a: int,
    c: int,
)
    requires
        m.tree.is_tree(),
        m.tree.slots_wf(),
        m.tree.resolves(root) is Some,
        m.tree.below(m.tree.resolves(root)->0, a),
        !facts[a].seen,
        m.tree.alive(c),
        m.tree.below(a, c),
    ensures
        m.hit(r, facts, ink, root) != m.tree.id_of(c),
{
    if m.hit(r, facts, ink, root) == m.tree.id_of(c) {
        let t = m.tree;
        let top = t.resolves(root)->0;
        assert(t.id_of(c) > 0);
        law_hit_is_seen(m, r, facts, ink, root);
        let d = choose|d: int| #[trigger]
            m.shows_at(facts, top, d) && m.hit(r, facts, ink, root) == t.id_of(d);
        assert(c == d);
        let n = choose|n: nat| #[trigger] m.seen_through(facts, top, c, n);
        let k = choose|k: nat| #[trigger] t.up(c, k) == Some(a);
        let q = choose|q: nat| #[trigger] t.up(a, q) == Some(top);
        if k > n {
            lemma_up_up(t, c, k, q);
            lemma_up_up(t, c, n, (k + q - n) as nat);
            assert(t.up(top, (k + q - n) as nat) == Some(top));
            crate::tree::lemma_up_depth(t, t.some_depth(), top, (k + q - n) as nat);
        }
        assert(t.up(c, k) == Some(a));
    }
}

/// Where something is painted at a point there is a box: what hits by ink hits
/// by boxes too. Nothing is hit either way where the root is not seen.
pub proof fn law_ink_lies_in_boxes(m: SceneModel, r: Rules, facts: Seq<HitFacts>, root: int)
    requires
        m.tree.slots_wf(),
    ensures
        m.hit(r, facts, true, root) != 0 ==> m.hit(r, facts, false, root) != 0,
        (m.tree.resolves(root) matches Some(top) ==> !facts[top].seen) ==> m.hit(
            r,
            facts,
            true,
            root,
        ) == 0 && m.hit(r, facts, false, root) == 0,
{
    if m.hit(r, facts, true, root) != 0 {
        let top = m.tree.resolves(root)->0;
        lemma_ink_in_boxes(m, r, facts, top);
        let found = m.claimants(r, facts, false, top);
        law_claimants_are_seen(m, r, facts, false, top, found.len() - 1);
        assert(m.tree.alive(found.last()));
    }
}

proof fn lemma_ink_in_boxes(m: SceneModel, r: Rules, facts: Seq<HitFacts>, s: int)
    requires
        m.claimants(r, facts, true, s).len() > 0,
    ensures
        m.claimants(r, facts, false, s).len() > 0,
    decreases m.tree.height(s), 1nat, 0int,
{
    if !m.claims_point(r, s, facts[s], true) {
        lemma_ink_below(m, r, facts, s, m.tree.links[s].children.len() as int);
    }
}

proof fn lemma_ink_below(m: SceneModel, r: Rules, facts: Seq<HitFacts>, s: int, k: int)
    requires
        m.claimants_below(r, facts, true, s, k).len() > 0,
    ensures
        m.claimants_below(r, facts, false, s, k).len() > 0,
    decreases m.tree.height(s), 0nat, k,
{
    lemma_painted_is_lower(m, r, s, k - 1);
    let c = m.painted_children(r, s)[k - 1] as int;
    if m.claimants_below(r, facts, true, s, k - 1).len() > 0 {
        lemma_ink_below(m, r, facts, s, k - 1);
    } else {
        lemma_ink_in_boxes(m, r, facts, c);
    }
}

/// How far to the front a node is, is a number with a sign.
pub proof fn law_front_has_a_sign(m: SceneModel, r: Rules, s: int)
    ensures
        ({
            let bits = node_value(m.nodes[s], r.styles, true, r.props.z_index);
            &&& bits < 0x8000_0000 ==> m.z_of(r, s) == bits
            &&& bits >= 0x8000_0000 ==> m.z_of(r, s) == bits - 0x1_0000_0000
        }),
{
    let bits = node_value(m.nodes[s], r.styles, true, r.props.z_index);
    assert(bits < 0x8000_0000 ==> bits as i32 == bits) by (bit_vector);
    assert(bits >= 0x8000_0000 ==> bits as i32 == bits - 0x1_0000_0000) by (bit_vector);
}

/// Text is of a fixed size only where both its width and its height are numbers
/// not below zero.
pub proof fn law_when_text_is_fixed(m: SceneModel, r: Rules, s: int)
    ensures
        ({
            let w = node_value(m.nodes[s], r.styles, true, r.props.width);
            let h = node_value(m.nodes[s], r.styles, true, r.props.height);
            &&& w < 0x7f80_0000 && h < 0x7f80_0000 ==> m.fixed_size(r, s)
            &&& 0x7f80_0000 <= w < 0x8000_0000 || 0x7f80_0000 <= h < 0x8000_0000 ==> !m.fixed_size(
                r,
                s,
            )
            &&& w > 0x8000_0000 || h > 0x8000_0000 ==> !m.fixed_size(r, s)
        }),
{
}

/// New text is laid out: the whole tree where a run appears or vanishes with it,
/// and otherwise the run that it is part of, unless that is of a fixed size.
pub proof fn law_new_text_is_laid_out(m: SceneModel, r: Rules, s: int, text: Seq<char>)
    requires
        0 <= s < m.nodes.len(),
        m.nodes[s].kind == 1,
        m.nodes[s].text != text,
    ensures
        ({
            let root = m.text_root(s);
            let n = m.with_text(r, s, text);
            let (was, is) = (m.run_of(root).len(), n.run_of(root).len());
            &&& n.nodes[s].text == text
            &&& forall|o: int|
                0 <= o < m.nodes.len() && o != s ==> #[trigger] n.nodes[o] == m.nodes[o]
            &&& (was == 0) != (is == 0) ==> n.layouts.main.dirty
            &&& was > 0 && is > 0 && !n.fixed_size(r, root) ==> n.layouts.main.restyle.contains(
                root as u32,
            )
            &&& was == 0 && is == 0 ==> n.layouts == m.layouts
        }),
{
    let root = m.text_root(s);
    let n = m.with_text(r, s, text);
    let after = m.with_node(s, NodeModel { text, ..m.nodes[s] });
    assert(n.nodes == after.nodes && n.tree == after.tree);
    lemma_same_runs(after, n, root);
}

proof fn lemma_same_runs(a: SceneModel, b: SceneModel, s: int)
    requires
        a.nodes == b.nodes,
        a.tree == b.tree,
    ensures
        a.run_of(s) == b.run_of(s),
    decreases a.tree.height(s), 1nat, 0int,
{
    if a.tree.is_tree() && a.tree.alive(s) {
        lemma_same_runs_below(a, b, s, a.tree.links[s].children.len() as int);
    }
}

proof fn lemma_same_runs_below(a: SceneModel, b: SceneModel, s: int, k: int)
    requires
        a.nodes == b.nodes,
        a.tree == b.tree,
    ensures
        a.runs_of(s, k) == b.runs_of(s, k),
    decreases a.tree.height(s), 0nat, k,
{
    if a.tree.is_tree() && a.tree.alive(s) && 0 < k <= a.tree.links[s].children.len() {
        lemma_child_is_lower(a.tree, s, k - 1);
        lemma_same_runs_below(a, b, s, k - 1);
        lemma_same_runs(a, b, a.tree.links[s].children[k - 1] as int);
    }
}

/// A node that looks different under the focus or when pressed has variants.
pub proof fn law_which_nodes_have_variants(m: SceneModel, r: Rules, s: int)
    ensures
        m.nodes[s].style_id < 0 ==> !m.has_variants(r, s),
        r.styles.record_of(m.nodes[s].style_id) matches Some(rec) ==> {
            &&& rec.focus@.len() > 0 ==> m.has_variants(r, s)
            &&& rec.active@.len() > 0 ==> m.has_variants(r, s)
            &&& rec.focus@.len() == 0 && rec.active@.len() == 0 ==> !m.has_variants(r, s)
        },
{
}

} // verus!
