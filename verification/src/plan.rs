//! In which order a tree is painted.
use crate::constants::{NODE_IMAGE, NODE_SURFACE, NODE_TEXT};
use crate::fbits::{is_zero, order_key, total_key, zero};
use crate::order::{
    comes_before, is_stable_order, law_sorted_is_stable, stable_order, stable_sorted,
};
use crate::paint::{nonzero, sprite_cell, sprite_index, BoxStep, BoxStyle, SpriteCell};
use crate::restyle::Rules;
use crate::scene::{NodeModel, Scene, SceneModel};
use crate::walk::{lemma_child_is_lower, lemma_painted_is_lower, HitFacts};
use vstd::prelude::*;

verus! {

// ---- the plan -------------------------------------------------------------------------------

/// How a node comes out on the screen.
#[derive(Clone, Copy)]
pub struct PaintFacts {
    /// The node is displayed.
    pub shown: bool,
    /// It is not fully transparent.
    pub visible: bool,
    pub style: BoxStyle,
    /// It clips what is below it.
    pub clips: bool,
    /// Nothing is left of the clip.
    pub clip_empty: bool,
    /// What is below it is seen in perspective.
    pub perspective: bool,
}

/// One thing to paint for the node in a slot.
pub enum PaintStep {
    /// Where the node is shall be known.
    Inspect(u32),
    /// A part of its box.
    Part(u32, BoxStep),
    /// Its run of text.
    Text(u32),
    /// Its texture, or a cell of it.
    Image(u32, Option<SpriteCell>),
    /// Its composited surface.
    Surface(u32),
    /// From here on its clip holds.
    Scissor(u32),
    /// The last clip ends.
    Unscissor,
    /// What is below it, in perspective.
    Perspective(u32),
}

/// The cell that an image shows; `None` for all of its texture.
pub open spec fn cell_of(n: NodeModel, frame: u64) -> Option<SpriteCell> {
    let sp = n.sprite;
    if sp.frames > 0 {
        let idx = sprite_index(frame, sp.start, sp.step, sp.frames);
        let cols = nonzero(sp.cols as int);
        Some(
            SpriteCell {
                cx: (idx % cols) as u32,
                cy: (idx / cols) as u32,
                cols: cols as u32,
                rows: ((sp.frames + cols - 1) / cols) as u32,
            },
        )
    } else {
        None
    }
}

pub open spec fn box_parts(s: int, steps: Seq<BoxStep>) -> Seq<PaintStep> {
    Seq::new(steps.len(), |i: int| PaintStep::Part(s as u32, steps[i]))
}

impl SceneModel {
    /// What is painted for a node itself, from back to front.
    pub open spec fn own_steps(self, s: int, f: PaintFacts, frame: u64) -> Seq<PaintStep> {
        let n = self.nodes[s];
        box_parts(s, f.style.steps()) + (if n.kind == NODE_TEXT {
            seq![PaintStep::Text(s as u32)]
        } else if n.kind == NODE_IMAGE && n.tex >= 0 {
            seq![PaintStep::Image(s as u32, cell_of(n, frame))]
        } else if n.kind == NODE_SURFACE && n.surface >= 0 {
            seq![PaintStep::Surface(s as u32)]
        } else {
            Seq::empty()
        })
    }

    pub open spec fn inspect_step(self, s: int, inspected: Option<u32>) -> Seq<PaintStep> {
        if inspected == Some(s as u32) {
            seq![PaintStep::Inspect(s as u32)]
        } else {
            Seq::empty()
        }
    }

    /// All that is painted for a node and what is below it, from back to
    /// front. What is not displayed, fully transparent or clipped away is left
    /// out; text nodes hold their text children in their run.
    pub open spec fn plan(
        self,
        r: Rules,
        facts: Seq<PaintFacts>,
        frame: u64,
        inspected: Option<u32>,
        s: int,
    ) -> Seq<PaintStep>
        decreases self.tree.height(s), 1nat, 0int,
    {
        let f = facts[s];
        if !self.tree.is_tree() || !self.tree.alive(s) || !f.shown {
            Seq::empty()
        } else if !f.visible {
            self.inspect_step(s, inspected)
        } else {
            let own = self.inspect_step(s, inspected) + self.own_steps(s, f, frame);
            if self.nodes[s].kind == NODE_TEXT || f.clips && f.clip_empty {
                own
            } else {
                let inner = if f.perspective {
                    seq![PaintStep::Perspective(s as u32)]
                } else {
                    self.plan_below(
                        r,
                        facts,
                        frame,
                        inspected,
                        s,
                        self.tree.links[s].children.len() as int,
                    )
                };
                if f.clips {
                    own + seq![PaintStep::Scissor(s as u32)] + inner + seq![PaintStep::Unscissor]
                } else {
                    own + inner
                }
            }
        }
    }

    /// That of the first `k` painted children.
    pub open spec fn plan_below(
        self,
        r: Rules,
        facts: Seq<PaintFacts>,
        frame: u64,
        inspected: Option<u32>,
        s: int,
        k: int,
    ) -> Seq<PaintStep>
        decreases self.tree.height(s), 0nat, k,
    {
        if self.tree.is_tree() && self.tree.alive(s) && 0 < k <= self.tree.links[s].children.len()
            && self.tree.links[s].children.len() <= usize::MAX {
            let c = self.painted_children(r, s)[k - 1] as int;
            proof {
                lemma_painted_is_lower(self, r, s, k - 1);
            }
            self.plan_below(r, facts, frame, inspected, s, k - 1) + self.plan(
                r,
                facts,
                frame,
                inspected,
                c,
            )
        } else {
            Seq::empty()
        }
    }
}

impl Scene {
    fn own_paint(&self, s: u32, f: &PaintFacts, frame: u64, out: &mut Vec<PaintStep>)
        requires
            self.wf(),
            s < self.nodes@.len(),
        ensures
            final(out)@ == old(out)@ + self@.own_steps(s as int, *f, frame),
    {
        let steps = f.style.paint_steps();
        let ghost start = out@;
        let mut i: usize = 0;
        proof {
            assert(out@ =~= start + box_parts(s as int, steps@).take(0));
        }
        while i < steps.len()
            invariant
                i <= steps@.len(),
                out@ =~= start + box_parts(s as int, steps@).take(i as int),
            decreases steps@.len() - i,
        {
            out.push(PaintStep::Part(s, steps[i]));
            i = i + 1;
        }
        proof {
            assert(box_parts(s as int, steps@).take(i as int) =~= box_parts(s as int, steps@));
        }
        let n = &self.nodes[s as usize];
        if n.kind == NODE_TEXT {
            out.push(PaintStep::Text(s));
        } else if n.kind == NODE_IMAGE && n.tex >= 0 {
            let cell = if n.sprite.frames > 0 {
                Some(
                    sprite_cell(
                        frame,
                        n.sprite.start,
                        n.sprite.step,
                        n.sprite.frames,
                        n.sprite.cols,
                    ),
                )
            } else {
                None
            };
            out.push(PaintStep::Image(s, cell));
        } else if n.kind == NODE_SURFACE && n.surface >= 0 {
            out.push(PaintStep::Surface(s));
        }
        proof {
            assert(out@ =~= start + self@.own_steps(s as int, *f, frame));
        }
    }

    /// Adds what is painted for a node and below it.
    fn paint_walk(
        &self,
        facts: &[PaintFacts],
        frame: u64,
        inspected: Option<u32>,
        s: u32,
        out: &mut Vec<PaintStep>,
    )
        requires
            self.wf(),
            self@.tree.is_tree(),
            self@.tree.alive(s as int),
            facts@.len() == self.nodes@.len(),
        ensures
            final(out)@ == old(out)@ + self@.plan(
                self.rules(),
                facts@,
                frame,
                inspected,
                s as int,
            ),
        decreases self@.tree.height(s as int), 1nat,
    {
        let ghost m = self@;
        let ghost r = self.rules();
        let ghost start = out@;
        let f = facts[s as usize];
        if !f.shown {
            proof {
                assert(out@ =~= start + m.plan(r, facts@, frame, inspected, s as int));
            }
            return;
        }
        match inspected {
            Some(at) => {
                if at == s {
                    out.push(PaintStep::Inspect(s));
                }
            },
            None => {},
        }
        proof {
            assert(out@ =~= start + m.inspect_step(s as int, inspected));
        }
        if !f.visible {
            return;
        }
        self.own_paint(s, &f, frame, out);
        let ghost own = m.inspect_step(s as int, inspected) + m.own_steps(s as int, f, frame);
        proof {
            assert(out@ =~= start + own);
        }
        if self.nodes[s as usize].kind == NODE_TEXT || f.clips && f.clip_empty {
            return;
        }
        if f.clips {
            out.push(PaintStep::Scissor(s));
        }
        let ghost open = if f.clips {
            seq![PaintStep::Scissor(s)]
        } else {
            Seq::<PaintStep>::empty()
        };
        let ghost base = out@;
        proof {
            assert(base =~= start + own + open);
        }
        let ghost inner = if f.perspective {
            seq![PaintStep::Perspective(s)]
        } else {
            m.plan_below(
                r,
                facts@,
                frame,
                inspected,
                s as int,
                m.tree.links[s as int].children.len() as int,
            )
        };
        if f.perspective {
            out.push(PaintStep::Perspective(s));
        } else {
            self.paint_below(facts, frame, inspected, s, out);
        }
        proof {
            assert(out@ =~= base + inner);
        }
        if f.clips {
            out.push(PaintStep::Unscissor);
            proof {
                assert(out@ =~= start + (own + open + inner + seq![PaintStep::Unscissor]));
            }
        } else {
            proof {
                assert(out@ =~= start + (own + inner));
            }
        }
    }

    /// Adds what is painted for the children of a node.
    fn paint_below(
        &self,
        facts: &[PaintFacts],
        frame: u64,
        inspected: Option<u32>,
        s: u32,
        out: &mut Vec<PaintStep>,
    )
        requires
            self.wf(),
            self@.tree.is_tree(),
            self@.tree.alive(s as int),
            facts@.len() == self.nodes@.len(),
        ensures
            final(out)@ == old(out)@ + self@.plan_below(
                self.rules(),
                facts@,
                frame,
                inspected,
                s as int,
                self@.tree.links[s as int].children.len() as int,
            ),
        decreases self@.tree.height(s as int), 0nat,
    {
        let ghost m = self@;
        let ghost r = self.rules();
        let ghost base = out@;
        let kids = self.children_in_paint_order(s);
        let n: usize = kids.len();
        let mut k: usize = 0;
        proof {
            assert(base + m.plan_below(r, facts@, frame, inspected, s as int, 0) =~= base);
        }
        while k < n
            invariant
                self.wf(),
                m == self@,
                r == self.rules(),
                m.tree.is_tree(),
                m.tree.alive(s as int),
                facts@.len() == self.nodes@.len(),
                n == kids@.len(),
                n == m.tree.links[s as int].children.len(),
                kids@ == m.painted_children(r, s as int),
                k <= n,
                out@ == base + m.plan_below(r, facts@, frame, inspected, s as int, k as int),
            decreases n - k,
        {
            let c: u32 = kids[k];
            proof {
                lemma_painted_is_lower(m, r, s as int, k as int);
            }
            let ghost before = m.plan_below(r, facts@, frame, inspected, s as int, k as int);
            let ghost sub = m.plan(r, facts@, frame, inspected, c as int);
            self.paint_walk(facts, frame, inspected, c, out);
            proof {
                assert(m.plan_below(r, facts@, frame, inspected, s as int, k + 1) == before + sub);
                assert(out@ =~= base + (before + sub));
            }
            k = k + 1;
        }
    }

    /// Lists what to paint under a root, from back to front; nothing for a root
    /// that is not there.
    pub fn paint_plan(
        &self,
        root: i32,
        facts: &[PaintFacts],
        frame: u64,
        inspect_id: i32,
    ) -> (out: Vec<PaintStep>)
        requires
            self.wf(),
            facts@.len() == self.nodes@.len(),
        ensures
            out@ == (match self@.tree.resolves(root as int) {
                Some(s) => self@.plan(
                    self.rules(),
                    facts@,
                    frame,
                    match self@.tree.resolves(inspect_id as int) {
                        Some(i) => Some(i as u32),
                        None => None,
                    },
                    s,
                ),
                None => Seq::empty(),
            }),
    {
        proof {
            assert(self@.tree.linked(self.tree.depth@));
        }
        let mut out: Vec<PaintStep> = Vec::new();
        let inspected = self.tree.resolve(inspect_id);
        match self.tree.resolve(root) {
            Some(s) => self.paint_walk(facts, frame, inspected, s, &mut out),
            None => {},
        }
        proof {
            assert(Seq::<PaintStep>::empty() + out@ =~= out@);
        }
        out
    }
}

// ---- laws -------------------------------------------------------------------------------------

/// Clips that are open after the first `k` steps.
pub open spec fn open_after(steps: Seq<PaintStep>, k: int) -> int
    decreases k,
{
    if k <= 0 {
        0
    } else {
        open_after(steps, k - 1) + (match steps[k - 1] {
            PaintStep::Scissor(_s) => 1int,
            PaintStep::Unscissor => -1int,
            _ => 0int,
        })
    }
}

/// Clips are closed in the order they were opened in, and all of them are.
pub open spec fn balanced(steps: Seq<PaintStep>) -> bool {
    &&& open_after(steps, steps.len() as int) == 0
    &&& forall|k: int| 0 <= k <= steps.len() ==> #[trigger] open_after(steps, k) >= 0
}

proof fn lemma_open_concat(a: Seq<PaintStep>, b: Seq<PaintStep>, k: int)
    requires
        0 <= k <= a.len() + b.len(),
    ensures
        open_after(a + b, k) == (if k <= a.len() {
            open_after(a, k)
        } else {
            open_after(a, a.len() as int) + open_after(b, k - a.len())
        }),
    decreases k,
{
    if k > 0 {
        lemma_open_concat(a, b, k - 1);
        if k <= a.len() {
            assert((a + b)[k - 1] == a[k - 1]);
        } else {
            assert((a + b)[k - 1] == b[k - 1 - a.len()]);
            assert(open_after(b, 0) == 0);
        }
    }
}

proof fn lemma_balanced_concat(a: Seq<PaintStep>, b: Seq<PaintStep>)
    requires
        balanced(a),
        balanced(b),
    ensures
        balanced(a + b),
{
    lemma_open_concat(a, b, (a + b).len() as int);
    if b.len() == 0 {
        assert(a + b =~= a);
    }
    assert forall|k: int| 0 <= k <= (a + b).len() implies #[trigger] open_after(a + b, k) >= 0 by {
        lemma_open_concat(a, b, k);
        if k > a.len() {
            assert(open_after(b, k - a.len()) >= 0);
        } else {
            assert(open_after(a, k) >= 0);
        }
    }
}

proof fn lemma_plain_balanced(a: Seq<PaintStep>)
    requires
        forall|i: int| 0 <= i < a.len() ==> !(#[trigger] a[i] is Scissor) && !(a[i] is Unscissor),
    ensures
        balanced(a),
{
    assert forall|k: int| 0 <= k <= a.len() implies #[trigger] open_after(a, k) == 0 by {
        lemma_plain_open(a, k);
    }
}

proof fn lemma_plain_open(a: Seq<PaintStep>, k: int)
    requires
        0 <= k <= a.len(),
        forall|i: int| 0 <= i < a.len() ==> !(#[trigger] a[i] is Scissor) && !(a[i] is Unscissor),
    ensures
        open_after(a, k) == 0,
    decreases k,
{
    if k > 0 {
        lemma_plain_open(a, k - 1);
        assert(!(a[k - 1] is Scissor) && !(a[k - 1] is Unscissor));
    }
}

proof fn lemma_bracketed(s: u32, inner: Seq<PaintStep>)
    requires
        balanced(inner),
    ensures
        balanced(seq![PaintStep::Scissor(s)] + inner + seq![PaintStep::Unscissor]),
{
    let a = seq![PaintStep::Scissor(s)];
    let z = seq![PaintStep::Unscissor];
    let all = a + inner + z;
    assert(open_after(a, 0) == 0);
    assert(open_after(a, 1) == 1) by {
        assert(a[0] == PaintStep::Scissor(s));
    }
    assert(open_after(z, 0) == 0);
    assert(open_after(z, 1) == -1) by {
        assert(z[0] == PaintStep::Unscissor);
    }
    assert forall|k: int| 0 <= k <= all.len() implies #[trigger] open_after(all, k) == (if k
        == all.len() {
        0
    } else if k == 0 {
        0
    } else {
        1 + open_after(inner, k - 1)
    }) by {
        lemma_open_concat(a + inner, z, k);
        if k <= (a + inner).len() {
            lemma_open_concat(a, inner, k);
        } else {
            lemma_open_concat(a, inner, (a + inner).len() as int);
        }
    }
    assert forall|k: int| 0 <= k <= all.len() implies #[trigger] open_after(all, k) >= 0 by {
        if 0 < k < all.len() {
            assert(open_after(inner, k - 1) >= 0);
        }
    }
}

/// The clips of a painted tree are balanced.
pub proof fn law_clips_balance(
    m: SceneModel,
    r: Rules,
    facts: Seq<PaintFacts>,
    frame: u64,
    inspected: Option<u32>,
    s: int,
)
    ensures
        balanced(m.plan(r, facts, frame, inspected, s)),
    decreases m.tree.height(s), 1nat, 0int,
{
    let f = facts[s];
    let p = m.plan(r, facts, frame, inspected, s);
    if !m.tree.is_tree() || !m.tree.alive(s) || !f.shown {
        lemma_plain_balanced(p);
    } else if !f.visible {
        lemma_plain_balanced(p);
    } else {
        let own = m.inspect_step(s, inspected) + m.own_steps(s, f, frame);
        lemma_plain_balanced(own);
        if m.nodes[s].kind == NODE_TEXT || f.clips && f.clip_empty {
        } else {
            let n = m.tree.links[s].children.len() as int;
            let inner = if f.perspective {
                seq![PaintStep::Perspective(s as u32)]
            } else {
                m.plan_below(r, facts, frame, inspected, s, n)
            };
            if f.perspective {
                lemma_plain_balanced(inner);
            } else {
                lemma_below_balanced(m, r, facts, frame, inspected, s, n);
            }
            if f.clips {
                lemma_bracketed(s as u32, inner);
                let middle = seq![PaintStep::Scissor(s as u32)] + inner + seq![
                    PaintStep::Unscissor,
                ];
                lemma_balanced_concat(own, middle);
                assert(p =~= own + middle);
            } else {
                lemma_balanced_concat(own, inner);
            }
        }
    }
}

proof fn lemma_below_balanced(
    m: SceneModel,
    r: Rules,
    facts: Seq<PaintFacts>,
    frame: u64,
    inspected: Option<u32>,
    s: int,
    k: int,
)
    ensures
        balanced(m.plan_below(r, facts, frame, inspected, s, k)),
    decreases m.tree.height(s), 0nat, k,
{
    if m.tree.is_tree() && m.tree.alive(s) && 0 < k <= m.tree.links[s].children.len()
        && m.tree.links[s].children.len() <= usize::MAX {
        lemma_painted_is_lower(m, r, s, k - 1);
        let c = m.painted_children(r, s)[k - 1] as int;
        lemma_below_balanced(m, r, facts, frame, inspected, s, k - 1);
        law_clips_balance(m, r, facts, frame, inspected, c);
        lemma_balanced_concat(
            m.plan_below(r, facts, frame, inspected, s, k - 1),
            m.plan(r, facts, frame, inspected, c),
        );
    } else {
        lemma_plain_balanced(m.plan_below(r, facts, frame, inspected, s, k));
    }
}

// ---- hits and painting agree --------------------------------------------------------------------

/// The slots of a list stand in an order, none before one that comes earlier.
pub open spec fn follows(slots: Seq<int>, order: Seq<int>) -> bool {
    exists|at: Seq<int>| #[trigger] placed(slots, order, at)
}

/// `at` holds the places of the slots of a list in an order.
pub open spec fn placed(slots: Seq<int>, order: Seq<int>, at: Seq<int>) -> bool {
    &&& at.len() == slots.len()
    &&& forall|i: int|
        #![trigger at[i]]
        0 <= i < at.len() ==> 0 <= at[i] < order.len() && order[at[i]] == slots[i]
    &&& forall|i: int, j: int| 0 <= i <= j < at.len() ==> #[trigger] at[i] <= #[trigger] at[j]
}

proof fn lemma_follows_concat(a: Seq<int>, p: Seq<int>, b: Seq<int>, q: Seq<int>)
    requires
        follows(a, p),
        follows(b, q),
    ensures
        follows(a + b, p + q),
{
    let x = choose|at: Seq<int>| #[trigger] placed(a, p, at);
    let y = choose|at: Seq<int>| #[trigger] placed(b, q, at);
    let at = x + Seq::new(y.len(), |i: int| y[i] + p.len());
    assert forall|i: int| #![trigger at[i]] 0 <= i < at.len() implies 0 <= at[i] < (p + q).len()
        && (p + q)[at[i]] == (a + b)[i] by {
        if i < x.len() {
            assert(at[i] == x[i]);
        } else {
            assert(at[i] == y[i - x.len()] + p.len());
        }
    }
    assert forall|i: int, j: int| 0 <= i <= j < at.len() implies #[trigger] at[i]
        <= #[trigger] at[j] by {
        if j < x.len() {
            assert(x[i] <= x[j]);
        } else if i >= x.len() {
            assert(y[i - x.len()] <= y[j - x.len()]);
        } else {
            assert(at[i] == x[i] && at[j] == y[j - x.len()] + p.len());
        }
    }
    assert(placed(a + b, p + q, at));
}

proof fn lemma_follows_one(a: Seq<int>, s: int)
    requires
        forall|i: int| 0 <= i < a.len() ==> #[trigger] a[i] == s,
    ensures
        follows(a, seq![s]),
{
    let at = Seq::new(a.len(), |i: int| 0int);
    assert(placed(a, seq![s], at));
}

proof fn lemma_follows_nothing(order: Seq<int>)
    ensures
        follows(Seq::empty(), order),
{
    assert(placed(Seq::empty(), order, Seq::empty()));
}

/// The slot that a step is for; the end of a clip is for none.
pub open spec fn step_slot(step: PaintStep) -> Option<int> {
    match step {
        PaintStep::Unscissor => None,
        PaintStep::Inspect(s) => Some(s as int),
        PaintStep::Part(s, _b) => Some(s as int),
        PaintStep::Text(s) => Some(s as int),
        PaintStep::Image(s, _c) => Some(s as int),
        PaintStep::Surface(s) => Some(s as int),
        PaintStep::Scissor(s) => Some(s as int),
        PaintStep::Perspective(s) => Some(s as int),
    }
}

/// The slots that steps are for, the ends of clips left out.
pub open spec fn slots_of(steps: Seq<PaintStep>) -> Seq<int>
    decreases steps.len(),
{
    if steps.len() == 0 {
        Seq::empty()
    } else {
        match step_slot(steps.last()) {
            None => slots_of(steps.drop_last()),
            Some(s) => slots_of(steps.drop_last()).push(s),
        }
    }
}

proof fn lemma_slots_concat(a: Seq<PaintStep>, b: Seq<PaintStep>)
    ensures
        slots_of(a + b) == slots_of(a) + slots_of(b),
    decreases b.len(),
{
    if b.len() == 0 {
        assert(a + b =~= a);
        assert(slots_of(a) + slots_of(b) =~= slots_of(a));
    } else {
        assert((a + b).drop_last() =~= a + b.drop_last());
        lemma_slots_concat(a, b.drop_last());
        assert(slots_of(a + b) =~= slots_of(a) + slots_of(b));
    }
}

/// Every step is for the slot `s`, or the end of a clip.
pub open spec fn all_for(steps: Seq<PaintStep>, s: int) -> bool {
    forall|i: int|
        0 <= i < steps.len() ==> (step_slot(#[trigger] steps[i]) matches Some(x) ==> x == s)
}

proof fn lemma_own_follow(steps: Seq<PaintStep>, s: int)
    requires
        all_for(steps, s),
    ensures
        follows(slots_of(steps), seq![s]),
{
    lemma_own_slots(steps, s);
    lemma_follows_one(slots_of(steps), s);
}

proof fn lemma_own_slots(steps: Seq<PaintStep>, s: int)
    requires
        all_for(steps, s),
    ensures
        forall|i: int| 0 <= i < slots_of(steps).len() ==> #[trigger] slots_of(steps)[i] == s,
    decreases steps.len(),
{
    if steps.len() > 0 {
        let rest = steps.drop_last();
        assert forall|i: int| 0 <= i < rest.len() implies (step_slot(#[trigger] rest[i]) matches Some(
            x,
        ) ==> x == s) by {
            assert(rest[i] == steps[i]);
        }
        lemma_own_slots(rest, s);
        assert(steps[steps.len() - 1] == steps.last());
        let (all, sub) = (slots_of(steps), slots_of(rest));
        assert forall|i: int| 0 <= i < all.len() implies #[trigger] all[i] == s by {
            if i < sub.len() {
                assert(all[i] == sub[i]);
            }
        }
    }
}

impl SceneModel {
    /// The slots of a node and of all below it, in painting order.
    pub open spec fn stacking(self, r: Rules, s: int) -> Seq<int>
        decreases self.tree.height(s), 1nat, 0int,
    {
        if self.tree.is_tree() && self.tree.alive(s) {
            seq![s] + self.stacking_below(r, s, self.tree.links[s].children.len() as int)
        } else {
            Seq::empty()
        }
    }

    /// Those of the first `k` painted children.
    pub open spec fn stacking_below(self, r: Rules, s: int, k: int) -> Seq<int>
        decreases self.tree.height(s), 0nat, k,
    {
        if self.tree.is_tree() && self.tree.alive(s) && 0 < k <= self.tree.links[s].children.len()
            && self.tree.links[s].children.len() <= usize::MAX {
            let c = self.painted_children(r, s)[k - 1] as int;
            proof {
                lemma_painted_is_lower(self, r, s, k - 1);
            }
            self.stacking_below(r, s, k - 1) + self.stacking(r, c)
        } else {
            Seq::empty()
        }
    }
}

/// Painting goes through the tree in stacking order.
pub proof fn law_painting_follows_stacking(
    m: SceneModel,
    r: Rules,
    facts: Seq<PaintFacts>,
    frame: u64,
    inspected: Option<u32>,
    s: int,
)
    requires
        m.tree.links.len() <= 0x1_0000,
    ensures
        follows(slots_of(m.plan(r, facts, frame, inspected, s)), m.stacking(r, s)),
    decreases m.tree.height(s), 1nat, 0int,
{
    let f = facts[s];
    let p = m.plan(r, facts, frame, inspected, s);
    if !m.tree.is_tree() || !m.tree.alive(s) {
        lemma_follows_nothing(m.stacking(r, s));
    } else {
        let n = m.tree.links[s].children.len() as int;
        let below = m.stacking_below(r, s, n);
        assert((s as u32) as int == s);
        if !f.shown {
            lemma_follows_nothing(m.stacking(r, s));
        } else if !f.visible {
            lemma_own_follow(p, s);
            lemma_follows_nothing(below);
            lemma_follows_concat(slots_of(p), seq![s], Seq::empty(), below);
            assert(slots_of(p) + Seq::<int>::empty() =~= slots_of(p));
        } else {
            let own = m.inspect_step(s, inspected) + m.own_steps(s, f, frame);
            if m.nodes[s].kind == NODE_TEXT || f.clips && f.clip_empty {
                lemma_own_follow(own, s);
                lemma_follows_nothing(below);
                lemma_follows_concat(slots_of(own), seq![s], Seq::empty(), below);
                assert(slots_of(own) + Seq::<int>::empty() =~= slots_of(own));
            } else {
                let head = if f.clips {
                    own + seq![PaintStep::Scissor(s as u32)]
                } else {
                    own
                };
                let tail = if f.clips {
                    seq![PaintStep::Unscissor]
                } else {
                    Seq::<PaintStep>::empty()
                };
                if f.perspective {
                    let mid = seq![PaintStep::Perspective(s as u32)];
                    let all = head + mid + tail;
                    assert(p =~= all);
                    lemma_own_follow(all, s);
                    lemma_follows_nothing(below);
                    lemma_follows_concat(slots_of(all), seq![s], Seq::empty(), below);
                    assert(slots_of(all) + Seq::<int>::empty() =~= slots_of(all));
                } else {
                    let mid = m.plan_below(r, facts, frame, inspected, s, n);
                    lemma_own_follow(head, s);
                    lemma_below_follows(m, r, facts, frame, inspected, s, n);
                    lemma_follows_concat(slots_of(head), seq![s], slots_of(mid), below);
                    assert(p =~= head + mid + tail);
                    lemma_slots_concat(head, mid);
                    lemma_slots_concat(head + mid, tail);
                    assert(slots_of(tail) =~= Seq::<int>::empty()) by {
                        if f.clips {
                            assert(tail.last() is Unscissor);
                            assert(slots_of(tail) == slots_of(tail.drop_last()));
                            assert(tail.drop_last().len() == 0);
                        }
                    }
                    assert(slots_of(p) =~= slots_of(head) + slots_of(mid));
                }
            }
        }
    }
}

proof fn lemma_below_follows(
    m: SceneModel,
    r: Rules,
    facts: Seq<PaintFacts>,
    frame: u64,
    inspected: Option<u32>,
    s: int,
    k: int,
)
    requires
        m.tree.links.len() <= 0x1_0000,
    ensures
        follows(
            slots_of(m.plan_below(r, facts, frame, inspected, s, k)),
            m.stacking_below(r, s, k),
        ),
    decreases m.tree.height(s), 0nat, k,
{
    if m.tree.is_tree() && m.tree.alive(s) && 0 < k <= m.tree.links[s].children.len()
        && m.tree.links[s].children.len() <= usize::MAX {
        lemma_painted_is_lower(m, r, s, k - 1);
        let c = m.painted_children(r, s)[k - 1] as int;
        let a = m.plan_below(r, facts, frame, inspected, s, k - 1);
        let b = m.plan(r, facts, frame, inspected, c);
        lemma_below_follows(m, r, facts, frame, inspected, s, k - 1);
        law_painting_follows_stacking(m, r, facts, frame, inspected, c);
        lemma_follows_concat(
            slots_of(a),
            m.stacking_below(r, s, k - 1),
            slots_of(b),
            m.stacking(r, c),
        );
        lemma_slots_concat(a, b);
    } else {
        lemma_follows_nothing(m.stacking_below(r, s, k));
    }
}

/// Hits are claimed in the same stacking order, so that what a point hits
/// never disagrees with what is painted on top.
pub proof fn law_hits_follow_stacking(
    m: SceneModel,
    r: Rules,
    facts: Seq<HitFacts>,
    ink: bool,
    s: int,
)
    ensures
        follows(m.claimants(r, facts, ink, s), m.stacking(r, s)),
    decreases m.tree.height(s), 1nat, 0int,
{
    if !m.tree.is_tree() || !m.tree.alive(s) || !facts[s].seen {
        lemma_follows_nothing(m.stacking(r, s));
    } else {
        let n = m.tree.links[s].children.len() as int;
        let own = if m.claims_point(r, s, facts[s], ink) {
            seq![s]
        } else {
            Seq::<int>::empty()
        };
        lemma_follows_one(own, s);
        if m.opens(s, facts[s]) {
            lemma_hits_below_follow(m, r, facts, ink, s, n);
            lemma_follows_concat(
                own,
                seq![s],
                m.claimants_below(r, facts, ink, s, n),
                m.stacking_below(r, s, n),
            );
        } else {
            lemma_follows_nothing(m.stacking_below(r, s, n));
            lemma_follows_concat(own, seq![s], Seq::empty(), m.stacking_below(r, s, n));
            assert(own + Seq::<int>::empty() =~= own);
        }
    }
}

proof fn lemma_hits_below_follow(
    m: SceneModel,
    r: Rules,
    facts: Seq<HitFacts>,
    ink: bool,
    s: int,
    k: int,
)
    ensures
        follows(m.claimants_below(r, facts, ink, s, k), m.stacking_below(r, s, k)),
    decreases m.tree.height(s), 0nat, k,
{
    if m.tree.is_tree() && m.tree.alive(s) && 0 < k <= m.tree.links[s].children.len()
        && m.tree.links[s].children.len() <= usize::MAX {
        lemma_painted_is_lower(m, r, s, k - 1);
        let c = m.painted_children(r, s)[k - 1] as int;
        lemma_hits_below_follow(m, r, facts, ink, s, k - 1);
        law_hits_follow_stacking(m, r, facts, ink, c);
        lemma_follows_concat(
            m.claimants_below(r, facts, ink, s, k - 1),
            m.stacking_below(r, s, k - 1),
            m.claimants(r, facts, ink, c),
            m.stacking(r, c),
        );
    } else {
        lemma_follows_nothing(m.stacking_below(r, s, k));
    }
}

// ---- perspective ----------------------------------------------------------------------------------

/// How a node comes out in perspective. Depths are bit patterns, larger ones
/// nearer.
#[derive(Clone, Copy)]
pub struct SpaceFacts {
    /// The node is displayed.
    pub shown: bool,
    /// It is not fully transparent.
    pub visible: bool,
    /// Depth of its background, unless it paints none.
    pub quad: Option<u32>,
    /// Depth of its image, unless it has no size.
    pub image: Option<u32>,
    /// Depth of its text.
    pub text: u32,
}

/// One thing seen in perspective, with its depth.
#[derive(Clone, Copy)]
pub enum SpaceItem {
    Quad(u32, u32),
    Image(u32, u32),
    Text(u32, u32),
}

pub open spec fn depth_of(item: SpaceItem) -> u32 {
    match item {
        SpaceItem::Quad(_s, d) => d,
        SpaceItem::Image(_s, d) => d,
        SpaceItem::Text(_s, d) => d,
    }
}

impl SceneModel {
    pub open spec fn own_items(self, s: int, f: SpaceFacts) -> Seq<SpaceItem> {
        let n = self.nodes[s];
        (match f.quad {
            Some(d) => seq![SpaceItem::Quad(s as u32, d)],
            None => Seq::empty(),
        }) + (match f.image {
            Some(d) if n.kind == NODE_IMAGE && n.tex >= 0 => seq![SpaceItem::Image(s as u32, d)],
            _ => Seq::empty(),
        }) + (if n.kind == NODE_TEXT {
            seq![SpaceItem::Text(s as u32, f.text)]
        } else {
            Seq::empty()
        })
    }

    /// What is seen of a node and of what is below it, in document order.
    pub open spec fn items(self, facts: Seq<SpaceFacts>, s: int) -> Seq<SpaceItem>
        decreases self.tree.height(s), 1nat, 0int,
    {
        let f = facts[s];
        if !self.tree.is_tree() || !self.tree.alive(s) || !f.shown || !f.visible {
            Seq::empty()
        } else if self.nodes[s].kind == NODE_TEXT {
            self.own_items(s, f)
        } else {
            self.own_items(s, f) + self.items_below(
                facts,
                s,
                self.tree.links[s].children.len() as int,
            )
        }
    }

    /// That of the first `k` children.
    pub open spec fn items_below(self, facts: Seq<SpaceFacts>, s: int, k: int) -> Seq<SpaceItem>
        decreases self.tree.height(s), 0nat, k,
    {
        if self.tree.is_tree() && self.tree.alive(s) && 0 < k <= self.tree.links[s].children.len() {
            let c = self.tree.links[s].children[k - 1] as int;
            proof {
                lemma_child_is_lower(self.tree, s, k - 1);
            }
            self.items_below(facts, s, k - 1) + self.items(facts, c)
        } else {
            Seq::empty()
        }
    }
}

pub open spec fn depth_keys(items: Seq<SpaceItem>) -> Seq<i64> {
    Seq::new(items.len(), |i: int| total_key(depth_of(items[i])) as i64)
}

/// Items from the farthest to the nearest; equally far ones as they come.
pub open spec fn far_to_near(items: Seq<SpaceItem>) -> Seq<SpaceItem> {
    let order = stable_sorted(depth_keys(items), items.len() as int);
    Seq::new(items.len(), |i: int| items[order[i] as int])
}

impl Scene {
    fn collect_items(&self, facts: &[SpaceFacts], s: u32, out: &mut Vec<SpaceItem>)
        requires
            self.wf(),
            self@.tree.is_tree(),
            self@.tree.alive(s as int),
            facts@.len() == self.nodes@.len(),
        ensures
            final(out)@ == old(out)@ + self@.items(facts@, s as int),
        decreases self@.tree.height(s as int), 1nat,
    {
        let ghost m = self@;
        let ghost start = out@;
        let f = facts[s as usize];
        if !f.shown || !f.visible {
            proof {
                assert(out@ =~= start + m.items(facts@, s as int));
            }
            return;
        }
        let n = &self.nodes[s as usize];
        match f.quad {
            Some(d) => out.push(SpaceItem::Quad(s, d)),
            None => {},
        }
        match f.image {
            Some(d) => {
                if n.kind == NODE_IMAGE && n.tex >= 0 {
                    out.push(SpaceItem::Image(s, d));
                }
            },
            None => {},
        }
        let is_text: bool = n.kind == NODE_TEXT;
        if is_text {
            out.push(SpaceItem::Text(s, f.text));
        }
        let ghost own = m.own_items(s as int, f);
        proof {
            assert(out@ =~= start + own);
        }
        if is_text {
            return;
        }
        self.collect_below(facts, s, out);
        proof {
            let rest = m.items_below(
                facts@,
                s as int,
                m.tree.links[s as int].children.len() as int,
            );
            assert(out@ =~= start + (own + rest));
        }
    }

    fn collect_below(&self, facts: &[SpaceFacts], s: u32, out: &mut Vec<SpaceItem>)
        requires
            self.wf(),
            self@.tree.is_tree(),
            self@.tree.alive(s as int),
            facts@.len() == self.nodes@.len(),
        ensures
            final(out)@ == old(out)@ + self@.items_below(
                facts@,
                s as int,
                self@.tree.links[s as int].children.len() as int,
            ),
        decreases self@.tree.height(s as int), 0nat,
    {
        let ghost m = self@;
        let ghost base = out@;
        let kids = &self.tree.slots[s as usize].children;
        let n: usize = kids.len();
        let mut k: usize = 0;
        proof {
            assert(m.tree.links[s as int] == self.tree.slots@[s as int]@);
            assert(base + m.items_below(facts@, s as int, 0) =~= base);
        }
        while k < n
            invariant
                self.wf(),
                m == self@,
                m.tree.is_tree(),
                m.tree.alive(s as int),
                facts@.len() == self.nodes@.len(),
                n == kids@.len(),
                kids@ == m.tree.links[s as int].children,
                k <= n,
                out@ == base + m.items_below(facts@, s as int, k as int),
            decreases n - k,
        {
            let c: u32 = kids[k];
            proof {
                lemma_child_is_lower(m.tree, s as int, k as int);
            }
            let ghost before = m.items_below(facts@, s as int, k as int);
            let ghost sub = m.items(facts@, c as int);
            self.collect_items(facts, c, out);
            proof {
                assert(m.items_below(facts@, s as int, k + 1) == before + sub);
                assert(out@ =~= base + (before + sub));
            }
            k = k + 1;
        }
    }

    /// What is seen below a node in perspective, from the farthest to the
    /// nearest.
    pub fn space_plan(&self, s: u32, facts: &[SpaceFacts]) -> (out: Vec<SpaceItem>)
        requires
            self.wf(),
            self@.tree.alive(s as int),
            facts@.len() == self.nodes@.len(),
        ensures
            out@ == far_to_near(
                self@.items_below(
                    facts@,
                    s as int,
                    self@.tree.links[s as int].children.len() as int,
                ),
            ),
    {
        proof {
            assert(self@.tree.linked(self.tree.depth@));
        }
        let mut items: Vec<SpaceItem> = Vec::new();
        self.collect_below(facts, s, &mut items);
        proof {
            assert(items@ =~= self@.items_below(
                facts@,
                s as int,
                self@.tree.links[s as int].children.len() as int,
            ));
        }
        sort_items(&items)
    }
}

fn sort_items(items: &Vec<SpaceItem>) -> (out: Vec<SpaceItem>)
    ensures
        out@ == far_to_near(items@),
{
    let n: usize = items.len();
    let mut keys: Vec<i64> = Vec::new();
    let mut i: usize = 0;
    while i < n
        invariant
            i <= n,
            n == items@.len(),
            keys@ =~= depth_keys(items@).take(i as int),
        decreases n - i,
    {
        let depth: u32 = match items[i] {
            SpaceItem::Quad(_s, d) => d,
            SpaceItem::Image(_s, d) => d,
            SpaceItem::Text(_s, d) => d,
        };
        keys.push(order_key(depth));
        i = i + 1;
    }
    proof {
        assert(keys@ =~= depth_keys(items@));
    }
    let order = stable_order(keys.as_slice());
    let mut out: Vec<SpaceItem> = Vec::new();
    let mut k: usize = 0;
    while k < n
        invariant
            k <= n,
            n == items@.len(),
            order@ == stable_sorted(depth_keys(items@), n as int),
            is_stable_order(keys@, n as int, order@),
            out@ =~= far_to_near(items@).take(k as int),
        decreases n - k,
    {
        let at: usize = order[k];
        out.push(items[at]);
        k = k + 1;
    }
    proof {
        assert(out@ =~= far_to_near(items@));
    }
    out
}

/// What is farther away is painted first, and what is equally far in document
/// order.
pub proof fn law_far_things_first(items: Seq<SpaceItem>, i: int, j: int)
    requires
        items.len() <= usize::MAX,
        0 <= i < j < items.len(),
    ensures
        ({
            let order = stable_sorted(depth_keys(items), items.len() as int);
            let (a, b) = (order[i] as int, order[j] as int);
            &&& 0 <= a < items.len() && 0 <= b < items.len()
            &&& far_to_near(items)[i] == items[a] && far_to_near(items)[j] == items[b]
            &&& total_key(depth_of(items[a])) < total_key(depth_of(items[b])) || total_key(
                depth_of(items[a]),
            ) == total_key(depth_of(items[b])) && a < b
        }),
{
    let keys = depth_keys(items);
    law_sorted_is_stable(keys, items.len() as int);
    let order = stable_sorted(keys, items.len() as int);
    assert(comes_before(keys, order[i] as int, order[j] as int));
}

// ---- text ---------------------------------------------------------------------------------------

/// How a run of text is drawn.
#[derive(Clone, Copy, PartialEq, Eq, Debug)]
pub enum TextRoute {
    /// By the host.
    Native,
    /// From a font atlas.
    Atlas,
}

/// How a run of text is drawn, and whether it was laid out for another way
/// than it should be drawn in now: by the host where that has fonts and the
/// run is upright and not spaced. It is always drawn the way it was laid out
/// for.
pub fn text_route(
    laid_out_native: bool,
    in_perspective: bool,
    host_fonts: bool,
    tracking: u32,
    transformed: bool,
) -> (r: (TextRoute, bool))
    ensures
        r.0 == (if laid_out_native {
            TextRoute::Native
        } else {
            TextRoute::Atlas
        }),
        r.1 == (laid_out_native != (!in_perspective && host_fonts && is_zero(tracking)
            && !transformed)),
{
    let wanted: bool = !in_perspective && host_fonts && zero(tracking) && !transformed;
    (
        if laid_out_native {
            TextRoute::Native
        } else {
            TextRoute::Atlas
        },
        laid_out_native != wanted,
    )
}

/// An image with a sprite shows the cell that its sprite is at, counted along the
/// rows of its grid, which has room for all cells and no empty row; one without
/// shows all of its texture.
pub proof fn law_image_cells(n: NodeModel, frame: u64)
    ensures
        n.sprite.frames == 0 ==> cell_of(n, frame) is None,
        n.sprite.frames > 0 ==> (cell_of(n, frame) matches Some(c) && {
            let sp = n.sprite;
            &&& sp.cols > 0 ==> c.cols == sp.cols
            &&& sp.cols == 0 ==> c.cols == 1
            &&& c.cx < c.cols
            &&& c.cy * c.cols + c.cx == sprite_index(frame, sp.start, sp.step, sp.frames)
            &&& (c.rows - 1) * c.cols < sp.frames <= c.rows * c.cols
        }),
{
    let sp = n.sprite;
    if sp.frames > 0 {
        let idx = sprite_index(frame, sp.start, sp.step, sp.frames);
        let cols = nonzero(sp.cols as int);
        let f = sp.frames as int;
        assert(0 <= idx < f);
        let (x, y, rows) = (idx % cols, idx / cols, (f + cols - 1) / cols);
        assert(0 <= x < cols && 0 <= y <= idx && y * cols + x == idx) by (nonlinear_arith)
            requires
                x == idx % cols,
                y == idx / cols,
                0 <= idx,
                1 <= cols,
        ;
        assert((rows - 1) * cols < f <= rows * cols && 0 <= rows <= f) by (nonlinear_arith)
            requires
                rows == (f + cols - 1) / cols,
                1 <= cols,
                1 <= f,
        ;
    }
}

/// What is seen of a node in perspective: its background at its depth, its
/// picture at its own if it has one, and its text; nothing of what is not shown
/// or fully transparent.
pub proof fn law_things_in_space(m: SceneModel, facts: Seq<SpaceFacts>, s: int)
    requires
        m.tree.is_tree(),
        m.tree.alive(s),
    ensures
        ({
            let f = facts[s];
            let all = m.items(facts, s);
            let n = m.nodes[s];
            let seen = f.shown && f.visible;
            &&& !seen ==> all.len() == 0
            &&& seen && f.quad is Some ==> all.contains(SpaceItem::Quad(s as u32, f.quad->0))
            &&& seen && f.image is Some && n.kind == 2 && n.tex >= 0 ==> all.contains(
                SpaceItem::Image(s as u32, f.image->0),
            )
            &&& seen && n.kind == 1 ==> all.last() == SpaceItem::Text(s as u32, f.text)
        }),
{
    let f = facts[s];
    let all = m.items(facts, s);
    let own = m.own_items(s, f);
    if f.shown && f.visible {
        let q = if f.quad is Some {
            1int
        } else {
            0
        };
        if f.quad is Some {
            assert(all[0] == own[0] && own[0] == SpaceItem::Quad(s as u32, f.quad->0));
        }
        if f.image is Some && m.nodes[s].kind == NODE_IMAGE && m.nodes[s].tex >= 0 {
            assert(all[q] == own[q] && own[q] == SpaceItem::Image(s as u32, f.image->0));
        }
    }
}

proof fn lemma_items_below_hold(
    m: SceneModel,
    facts: Seq<SpaceFacts>,
    s: int,
    k: int,
    i: int,
    item: SpaceItem,
)
    requires
        m.tree.is_tree(),
        m.tree.alive(s),
        0 <= i < k <= m.tree.links[s].children.len(),
        m.items(facts, m.tree.links[s].children[i] as int).contains(item),
    ensures
        m.items_below(facts, s, k).contains(item),
    decreases k,
{
    let all = m.items_below(facts, s, k);
    let before = m.items_below(facts, s, k - 1);
    let own = m.items(facts, m.tree.links[s].children[k - 1] as int);
    assert(all == before + own);
    if i < k - 1 {
        lemma_items_below_hold(m, facts, s, k - 1, i, item);
        let x = choose|x: int| 0 <= x < before.len() && before[x] == item;
        assert(all[x] == item);
    } else {
        let x = choose|x: int| 0 <= x < own.len() && own[x] == item;
        assert(all[before.len() + x] == item);
    }
}

/// What is seen of a child in perspective is seen of its parent too.
pub proof fn law_children_in_space(
    m: SceneModel,
    facts: Seq<SpaceFacts>,
    s: int,
    i: int,
    item: SpaceItem,
)
    requires
        m.tree.is_tree(),
        m.tree.alive(s),
        facts[s].shown,
        facts[s].visible,
        m.nodes[s].kind != 1,
        0 <= i < m.tree.links[s].children.len(),
        m.items(facts, m.tree.links[s].children[i] as int).contains(item),
    ensures
        m.items(facts, s).contains(item),
{
    let n = m.tree.links[s].children.len() as int;
    lemma_items_below_hold(m, facts, s, n, i, item);
    let inner = m.items_below(facts, s, n);
    let x = choose|x: int| 0 <= x < inner.len() && inner[x] == item;
    let own = m.own_items(s, facts[s]);
    assert(m.items(facts, s)[own.len() + x] == item);
}

/// Nothing but what a node is made of is seen of it in perspective: a picture only
/// of an image that has one, and text only of text.
pub proof fn law_only_things_of_their_kind(m: SceneModel, facts: Seq<SpaceFacts>, s: int)
    requires
        m.tree.is_tree(),
        m.tree.alive(s),
        m.tree.links[s].children.len() == 0,
    ensures
        ({
            let all = m.items(facts, s);
            let n = m.nodes[s];
            &&& forall|i: int|
                #![trigger all[i]]
                0 <= i < all.len() ==> match all[i] {
                    SpaceItem::Quad(t, d) => t == s as u32 && facts[s].quad == Some(d),
                    SpaceItem::Image(t, d) => t == s as u32 && facts[s].image == Some(d) && n.kind
                        == 2 && n.tex >= 0,
                    SpaceItem::Text(t, d) => t == s as u32 && facts[s].text == d && n.kind == 1,
                }
            &&& all.len() <= 2
        }),
{
    let own = m.own_items(s, facts[s]);
    assert(m.items_below(facts, s, 0) =~= Seq::empty());
    let all = m.items(facts, s);
    assert(all =~= own || all.len() == 0);
}

} // verus!
