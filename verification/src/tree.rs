//! The node tree: generation-tagged ids over reusable slots, and the links
//! between parents and children.
use crate::constants::{ID_GEN_MASK, ID_SLOT_MASK};
use vstd::prelude::*;

verus! {

// ---- model --------------------------------------------------------------------------

/// The links of one slot.
#[verifier::ext_equal]
pub struct LinkModel {
    pub alive: bool,
    pub gen: u16,
    pub parent: Option<int>,
    pub children: Seq<u32>,
}

/// The links of all slots, and the stack of reusable slots.
#[verifier::ext_equal]
pub struct TreeModel {
    pub links: Seq<LinkModel>,
    pub free: Seq<u32>,
}

/// Number of slots an id can name.
pub open spec fn id_space() -> int {
    0x1_0000
}

/// Number of generations an id can tell apart.
pub open spec fn id_gens() -> int {
    0x8000
}

/// The slot of the root.
pub open spec fn root_slot() -> int {
    1
}

/// Links of an empty slot.
pub open spec fn empty_link(gen: u16) -> LinkModel {
    LinkModel { alive: false, gen, parent: None, children: Seq::empty() }
}

/// `children` without `c`.
pub open spec fn dropped(children: Seq<u32>, c: int) -> Seq<u32>
    decreases children.len(),
{
    if children.len() == 0 {
        children
    } else if children.last() == c {
        dropped(children.drop_last(), c)
    } else {
        dropped(children.drop_last(), c).push(children.last())
    }
}

impl TreeModel {
    pub open spec fn alive(self, s: int) -> bool {
        0 <= s < self.links.len() && self.links[s].alive
    }

    /// The id of the node in slot `s`.
    pub open spec fn id_of(self, s: int) -> int {
        self.links[s].gen as int * id_space() + s
    }

    /// The slot that an id names, when the node is alive and of its generation.
    pub open spec fn resolves(self, id: int) -> Option<int> {
        let s = id % id_space();
        if 0 <= id && self.alive(s) && self.links[s].gen as int == id / id_space() {
            Some(s)
        } else {
            None
        }
    }

    /// Parents and children agree, and `depth` goes down from parents to
    /// children, so that there is no cycle.
    pub open spec fn linked(self, depth: Seq<nat>) -> bool {
        &&& depth.len() == self.links.len()
        &&& forall|s: int, k: int|
            #![trigger self.links[s].children[k]]
            self.alive(s) && 0 <= k < self.links[s].children.len() ==> {
                let c = self.links[s].children[k] as int;
                self.alive(c) && self.links[c].parent == Some(s)
            }
        &&& forall|s: int|
            #![trigger self.links[s].parent]
            self.alive(s) && self.links[s].parent is Some ==> {
                let p = self.links[s].parent->0;
                self.alive(p) && self.links[p].children.contains(s as u32) && depth[p] < depth[s]
            }
        &&& forall|s: int|
            #![trigger self.links[s]]
            self.alive(s) ==> self.links[s].children.no_duplicates()
    }

    /// Slots fit the id space; the free stack holds each empty slot but 0 once
    /// and nothing else; the root is there and has no parent.
    pub open spec fn slots_wf(self) -> bool {
        &&& 2 <= self.links.len() <= id_space()
        &&& self.free.no_duplicates()
        &&& forall|i: int|
            #![trigger self.free[i]]
            0 <= i < self.free.len() ==> 1 < self.free[i] < self.links.len()
                && !self.links[self.free[i] as int].alive
        &&& forall|s: int|
            #![trigger self.links[s]]
            0 <= s < self.links.len() ==> {
                &&& (self.links[s].gen as int) < id_gens()
                &&& !self.links[s].alive ==> self.links[s] == empty_link(self.links[s].gen)
                &&& !self.links[s].alive && s != 0 ==> self.free.contains(s as u32)
            }
        &&& !self.links[0].alive
        &&& self.links[1].alive
        &&& self.links[1].gen == 0
        &&& self.links[1].parent is None
    }

    /// The node `n` steps up from `s`.
    pub open spec fn up(self, s: int, n: nat) -> Option<int>
        decreases n,
    {
        if n == 0 {
            Some(s)
        } else {
            match self.up(s, (n - 1) as nat) {
                Some(p) => self.links[p].parent,
                None => None,
            }
        }
    }

    /// `s` is `top` or below it.
    pub open spec fn below(self, top: int, s: int) -> bool {
        exists|n: nat| #[trigger] self.up(s, n) == Some(top)
    }

    /// The links with `c` unlinked from its parent.
    pub open spec fn detached(self, c: int) -> TreeModel {
        match self.links[c].parent {
            None => self,
            Some(p) => TreeModel {
                links: self.links.update(
                    p,
                    LinkModel {
                        children: dropped(self.links[p].children, c),
                        ..self.links[p]
                    },
                ).update(c, LinkModel { parent: None, ..self.links[c] }),
                ..self
            },
        }
    }

    /// The links with the detached node `c` put at position `k` under `p`.
    pub open spec fn attached(self, p: int, c: int, k: int) -> TreeModel {
        TreeModel {
            links: self.links.update(
                p,
                LinkModel {
                    children: self.links[p].children.insert(k, c as u32),
                    ..self.links[p]
                },
            ).update(c, LinkModel { parent: Some(p), ..self.links[c] }),
            ..self
        }
    }
}

// ---- lemmas about lists of children ---------------------------------------------------

pub proof fn lemma_dropped(children: Seq<u32>, c: int)
    ensures
        !dropped(children, c).contains(c as u32) || !(0 <= c <= u32::MAX),
        forall|x: u32| x != c ==> (dropped(children, c).contains(x) <==> children.contains(x)),
        children.no_duplicates() ==> dropped(children, c).no_duplicates(),
        dropped(children, c).len() <= children.len(),
    decreases children.len(),
{
    if children.len() > 0 {
        let init = children.drop_last();
        let last = children.last();
        lemma_dropped(init, c);
        let out = dropped(children, c);
        let before = dropped(init, c);
        assert(children =~= init.push(last));
        assert forall|x: u32| x != c implies (out.contains(x) <==> children.contains(x)) by {
            lemma_push_contains(init, last, x);
            lemma_push_contains(before, last, x);
        }
        if 0 <= c <= u32::MAX {
            lemma_push_contains(before, last, c as u32);
        }
        if children.no_duplicates() {
            assert(init.no_duplicates());
            if last != c {
                assert(!init.contains(last)) by {
                    if init.contains(last) {
                        let i = choose|i: int| 0 <= i < init.len() && init[i] == last;
                        assert(children[i] == children[children.len() - 1]);
                    }
                }
                assert(!before.contains(last));
                lemma_push_no_duplicates(before, last);
            }
        }
    }
}

proof fn lemma_push_contains(s: Seq<u32>, v: u32, x: u32)
    ensures
        s.push(v).contains(x) <==> s.contains(x) || x == v,
{
    if s.contains(x) {
        let i = choose|i: int| 0 <= i < s.len() && s[i] == x;
        assert(s.push(v)[i] == x);
    }
    if x == v {
        assert(s.push(v)[s.len() as int] == x);
    }
    if s.push(v).contains(x) {
        let i = choose|i: int| 0 <= i < s.push(v).len() && s.push(v)[i] == x;
        if i < s.len() {
            assert(s[i] == x);
        }
    }
}

proof fn lemma_push_no_duplicates(s: Seq<u32>, v: u32)
    requires
        s.no_duplicates(),
        !s.contains(v),
    ensures
        s.push(v).no_duplicates(),
{
    let t = s.push(v);
    assert forall|i: int, j: int| 0 <= i < t.len() && 0 <= j < t.len() && i != j implies t[i]
        != t[j] by {
        if i < s.len() && j < s.len() {
            assert(s[i] != s[j]);
        } else if i < s.len() {
            assert(s.contains(s[i]));
        } else {
            assert(s.contains(s[j]));
        }
    }
}

proof fn lemma_insert(s: Seq<u32>, k: int, v: u32)
    requires
        0 <= k <= s.len(),
    ensures
        forall|x: u32| s.insert(k, v).contains(x) <==> s.contains(x) || x == v,
        s.no_duplicates() && !s.contains(v) ==> s.insert(k, v).no_duplicates(),
{
    let t = s.insert(k, v);
    assert forall|x: u32| t.contains(x) <==> s.contains(x) || x == v by {
        if s.contains(x) {
            let i = choose|i: int| 0 <= i < s.len() && s[i] == x;
            if i < k {
                assert(t[i] == x);
            } else {
                assert(t[i + 1] == x);
            }
        }
        if x == v {
            assert(t[k] == x);
        }
        if t.contains(x) {
            let i = choose|i: int| 0 <= i < t.len() && t[i] == x;
            if i < k {
                assert(s[i] == x);
            } else if i > k {
                assert(s[i - 1] == x);
            }
        }
    }
    if s.no_duplicates() && !s.contains(v) {
        assert forall|i: int, j: int| 0 <= i < t.len() && 0 <= j < t.len() && i != j implies t[i]
            != t[j] by {
            let a = if i < k {
                i
            } else {
                i - 1
            };
            let b = if j < k {
                j
            } else {
                j - 1
            };
            if i != k {
                assert(t[i] == s[a]);
                assert(s.contains(s[a]));
            }
            if j != k {
                assert(t[j] == s[b]);
                assert(s.contains(s[b]));
            }
        }
    }
}

// ---- lemmas about links ----------------------------------------------------------------

/// Detaching a node keeps the tree in order.
pub proof fn lemma_detached_wf(m: TreeModel, depth: Seq<nat>, c: int)
    requires
        m.slots_wf(),
        m.linked(depth),
        m.alive(c),
    ensures
        m.detached(c).slots_wf(),
        m.detached(c).linked(depth),
        m.detached(c).links.len() == m.links.len(),
        m.detached(c).links[c].parent is None,
        m.detached(c).links[c].children == m.links[c].children,
        forall|s: int| #[trigger] m.detached(c).alive(s) <==> m.alive(s),
        forall|s: int|
            0 <= s < m.links.len() ==> (#[trigger] m.detached(c).links[s]).gen == m.links[s].gen,
{
    let t = m.detached(c);
    match m.links[c].parent {
        None => {},
        Some(p) => {
            assert(m.alive(p) && depth[p] < depth[c]);
            lemma_dropped(m.links[p].children, c);
            let kept = dropped(m.links[p].children, c);
            assert(t.links[p].children == kept);
            assert forall|s: int, k: int|
                #![trigger t.links[s].children[k]]
                t.alive(s) && 0 <= k < t.links[s].children.len() implies {
                let x = t.links[s].children[k] as int;
                t.alive(x) && t.links[x].parent == Some(s)
            } by {
                let x = t.links[s].children[k] as int;
                if s == p {
                    assert(kept.contains(kept[k]));
                    assert(m.links[p].children.contains(x as u32));
                    let j = choose|j: int|
                        0 <= j < m.links[p].children.len() && m.links[p].children[j] == x as u32;
                    assert(m.links[p].children[j] == x as u32);
                    assert(x != c);
                } else {
                    assert(m.links[s].children[k] == x as u32);
                    assert(m.links[x].parent == Some(s));
                    assert(x != c);
                }
            }
            assert forall|s: int|
                #![trigger t.links[s].parent]
                t.alive(s) && t.links[s].parent is Some implies {
                let q = t.links[s].parent->0;
                t.alive(q) && t.links[q].children.contains(s as u32) && depth[q] < depth[s]
            } by {
                assert(m.links[s].parent == t.links[s].parent);
                let q = m.links[s].parent->0;
                if q == p {
                    assert(m.links[p].children.contains(s as u32));
                    assert(s as u32 != c);
                }
            }
        },
    }
}

/// Going up from a node, `depth` goes down.
pub proof fn lemma_up_depth(m: TreeModel, depth: Seq<nat>, s: int, n: nat)
    requires
        m.linked(depth),
        m.alive(s),
    ensures
        m.up(s, n) matches Some(a) ==> m.alive(a) && depth[a] + n <= depth[s],
    decreases n,
{
    if n > 0 {
        lemma_up_depth(m, depth, s, (n - 1) as nat);
        let b = m.up(s, (n - 1) as nat);
        if b is Some {
            assert(m.links[b->0].parent is Some ==> m.alive(m.links[b->0].parent->0));
        }
    }
}

/// What is below a node stays below it one step further down.
pub proof fn lemma_below_step(m: TreeModel, top: int, s: int)
    ensures
        m.links[s].parent is Some && m.below(top, m.links[s].parent->0) ==> m.below(top, s),
        m.below(top, top),
        m.below(top, s) && s != top ==> m.links[s].parent is Some && m.below(
            top,
            m.links[s].parent->0,
        ),
{
    assert(m.up(top, 0) == Some(top));
    if m.links[s].parent is Some {
        let p = m.links[s].parent->0;
        assert forall|n: nat| #[trigger] m.up(s, n + 1) == m.up(p, n) by {
            lemma_up_shift(m, s, p, n);
        }
        if m.below(top, p) {
            let n = choose|n: nat| #[trigger] m.up(p, n) == Some(top);
            assert(m.up(s, n + 1) == Some(top));
        }
        if m.below(top, s) && s != top {
            let n = choose|n: nat| #[trigger] m.up(s, n) == Some(top);
            assert(n > 0);
            assert(m.up(s, ((n - 1) as nat) + 1) == m.up(p, (n - 1) as nat));
        }
    } else {
        if m.below(top, s) && s != top {
            let n = choose|n: nat| #[trigger] m.up(s, n) == Some(top);
            lemma_up_none(m, s, n);
        }
    }
}

proof fn lemma_up_shift(m: TreeModel, s: int, p: int, n: nat)
    requires
        m.links[s].parent == Some(p),
    ensures
        m.up(s, n + 1) == m.up(p, n),
    decreases n,
{
    if n > 0 {
        lemma_up_shift(m, s, p, (n - 1) as nat);
        assert(m.up(s, n) == m.up(p, (n - 1) as nat));
        assert(((n + 1) - 1) as nat == n);
    } else {
        assert(m.up(s, 0) == Some(s));
        assert((1 - 1) as nat == 0);
    }
}

proof fn lemma_up_none(m: TreeModel, s: int, n: nat)
    requires
        m.links[s].parent is None,
    ensures
        n > 0 ==> m.up(s, n) is None,
    decreases n,
{
    if n > 1 {
        lemma_up_none(m, s, (n - 1) as nat);
    } else if n == 1 {
        assert(m.up(s, 0) == Some(s));
    }
}

/// A depth for every node after `c` and all below it went under `p`.
pub open spec fn sunk(m: TreeModel, depth: Seq<nat>, p: int, c: int) -> Seq<nat> {
    Seq::new(
        depth.len(),
        |x: int|
            if m.below(c, x) {
                depth[x] + depth[p] + 1
            } else {
                depth[x]
            },
    )
}

/// Putting a detached node under one that is not below it keeps the tree in
/// order.
pub proof fn lemma_attached_wf(m: TreeModel, depth: Seq<nat>, p: int, c: int, k: int)
    requires
        m.slots_wf(),
        m.linked(depth),
        m.alive(p),
        m.alive(c),
        c != root_slot(),
        m.links[c].parent is None,
        !m.below(c, p),
        0 <= k <= m.links[p].children.len(),
    ensures
        m.attached(p, c, k).slots_wf(),
        m.attached(p, c, k).linked(sunk(m, depth, p, c)),
        forall|s: int| #[trigger] m.attached(p, c, k).alive(s) <==> m.alive(s),
{
    let t = m.attached(p, c, k);
    let d = sunk(m, depth, p, c);
    lemma_below_step(m, c, c);
    assert(p != c);
    let old_kids = m.links[p].children;
    lemma_insert(old_kids, k, c as u32);
    assert(!old_kids.contains(c as u32)) by {
        if old_kids.contains(c as u32) {
            let j = choose|j: int| 0 <= j < old_kids.len() && old_kids[j] == c as u32;
            assert(m.links[p].children[j] == c as u32);
        }
    }
    assert(t.links[p].children == old_kids.insert(k, c as u32));
    assert forall|s: int, j: int|
        #![trigger t.links[s].children[j]]
        t.alive(s) && 0 <= j < t.links[s].children.len() implies {
        let x = t.links[s].children[j] as int;
        t.alive(x) && t.links[x].parent == Some(s)
    } by {
        let x = t.links[s].children[j] as int;
        if s == p {
            assert(t.links[p].children.contains(x as u32));
            if x != c {
                assert(old_kids.contains(x as u32));
                let i = choose|i: int| 0 <= i < old_kids.len() && old_kids[i] == x as u32;
                assert(m.links[p].children[i] == x as u32);
            }
        } else {
            assert(m.links[s].children[j] == x as u32);
            assert(m.links[x].parent == Some(s));
        }
    }
    assert forall|s: int| #![trigger t.links[s].parent] t.alive(s) && t.links[s].parent is Some implies {
        let q = t.links[s].parent->0;
        t.alive(q) && t.links[q].children.contains(s as u32) && d[q] < d[s]
    } by {
        if s != c {
            assert(m.links[s].parent == t.links[s].parent);
            let q = m.links[s].parent->0;
            assert(m.alive(q) && m.links[q].children.contains(s as u32) && depth[q] < depth[s]);
            lemma_below_step(m, c, s);
        }
    }
}

// ---- data -------------------------------------------------------------------------------

/// The links of a node.
pub struct Link {
    pub alive: bool,
    pub gen: u16,
    pub parent: Option<u32>,
    pub children: Vec<u32>,
}

impl View for Link {
    type V = LinkModel;

    open spec fn view(&self) -> LinkModel {
        LinkModel {
            alive: self.alive,
            gen: self.gen,
            parent: match self.parent {
                Some(p) => Some(p as int),
                None => None,
            },
            children: self.children@,
        }
    }
}

/// The tree of nodes. Slot 1 holds the root.
pub struct Links {
    pub slots: Vec<Link>,
    pub free: Vec<u32>,
    /// Some depth of every node, by which walks end.
    pub depth: Ghost<Seq<nat>>,
}

/// The links of a sequence of slots.
pub open spec fn link_models(slots: Seq<Link>) -> Seq<LinkModel> {
    Seq::new(slots.len(), |i: int| slots[i]@)
}

impl View for Links {
    type V = TreeModel;

    open spec fn view(&self) -> TreeModel {
        TreeModel { links: link_models(self.slots@), free: self.free@ }
    }
}

fn remove_value(v: &Vec<u32>, c: u32) -> (r: Vec<u32>)
    ensures
        r@ == dropped(v@, c as int),
{
    let mut r: Vec<u32> = Vec::new();
    let mut i: usize = 0;
    proof {
        assert(v@.take(0) =~= Seq::<u32>::empty());
    }
    while i < v.len()
        invariant
            i <= v@.len(),
            r@ == dropped(v@.take(i as int), c as int),
        decreases v@.len() - i,
    {
        proof {
            assert(v@.take(i + 1).drop_last() =~= v@.take(i as int));
        }
        if v[i] != c {
            r.push(v[i]);
        }
        i = i + 1;
    }
    proof {
        assert(v@.take(i as int) =~= v@);
    }
    r
}

impl Links {
    pub open spec fn wf(self) -> bool {
        self@.slots_wf() && self@.linked(self.depth@)
    }

    /// A tree of just the root.
    pub fn new() -> (t: Links)
        ensures
            t.wf(),
            t@.links.len() == 2,
            t@.free.len() == 0,
            t@.links[1] == (LinkModel {
                alive: true,
                gen: 0,
                parent: None,
                children: Seq::empty(),
            }),
    {
        let mut slots: Vec<Link> = Vec::new();
        slots.push(Link { alive: false, gen: 0, parent: None, children: Vec::new() });
        slots.push(Link { alive: true, gen: 0, parent: None, children: Vec::new() });
        let ghost flat = Seq::new(2, |i: int| 0nat);
        let t = Links { slots, free: Vec::new(), depth: Ghost(flat) };
        proof {
            assert(t@.links[0] =~= empty_link(0));
        }
        t
    }

    /// The slot an id names; `None` for stale and unknown ids.
    pub fn resolve(&self, id: i32) -> (r: Option<u32>)
        requires
            self.wf(),
        ensures
            r is Some <==> self@.resolves(id as int) is Some,
            r is Some ==> r->0 == self@.resolves(id as int)->0 && r->0 < self.slots@.len(),
    {
        if id < 0 {
            return None;
        }
        let u: u32 = id as u32;
        let gen: u32 = u / (ID_SLOT_MASK + 1);
        let slot: u32 = u % (ID_SLOT_MASK + 1);
        if slot as usize >= self.slots.len() {
            return None;
        }
        let link = &self.slots[slot as usize];
        proof {
            assert(self@.links[slot as int] == link@);
        }
        if link.alive && link.gen as u32 == gen {
            Some(slot)
        } else {
            None
        }
    }

    /// The id of the node in a slot.
    pub fn id(&self, slot: u32) -> (id: i32)
        requires
            self.wf(),
            slot < self.slots@.len(),
        ensures
            id == self@.id_of(slot as int),
            id >= 0,
    {
        let link = &self.slots[slot as usize];
        proof {
            assert(self@.links[slot as int] == link@);
            assert((self@.links[slot as int].gen as int) < id_gens());
        }
        (link.gen as u32 * (ID_SLOT_MASK + 1) + slot) as i32
    }

    /// The tree after a slot was taken for a new node, and that slot; `None`
    /// when ids run out.
    pub open spec fn alloced(m: TreeModel) -> Option<(TreeModel, int)> {
        if m.free.len() > 0 {
            let s = m.free.last() as int;
            Some(
                (
                    TreeModel {
                        links: m.links.update(s, LinkModel { alive: true, ..m.links[s] }),
                        free: m.free.drop_last(),
                    },
                    s,
                ),
            )
        } else if m.links.len() < id_space() {
            let s = m.links.len() as int;
            Some(
                (
                    TreeModel {
                        links: m.links.push(LinkModel { alive: true, ..empty_link(0) }),
                        free: m.free,
                    },
                    s,
                ),
            )
        } else {
            None
        }
    }

    /// Takes a slot for a new, detached node: the one released last, or else a
    /// new one.
    pub fn take_slot(&mut self) -> (r: Option<u32>)
        requires
            old(self).wf(),
        ensures
            final(self).wf(),
            r is Some <==> Links::alloced(old(self)@) is Some,
            r is None ==> *final(self) == *old(self),
            r matches Some(s) ==> (final(self)@, s as int) == Links::alloced(old(self)@)->0 && s > 1
                && s < final(self).slots@.len(),
    {
        let ghost m = self@;
        let ghost depth = self.depth@;
        if self.free.len() > 0 {
            let s: u32 = self.free[self.free.len() - 1];
            let _ = self.free.pop();
            proof {
                assert(m.free.last() == s);
                assert(1 < s < m.links.len() && !m.links[s as int].alive);
            }
            self.slots[s as usize].alive = true;
            proof {
                let (t, _slot) = Links::alloced(m)->0;
                assert(self@ =~= t);
                lemma_alloced_wf(m, depth);
            }
            Some(s)
        } else {
            if self.slots.len() > ID_SLOT_MASK as usize {
                return None;
            }
            let s: u32 = self.slots.len() as u32;
            self.slots.push(Link { alive: true, gen: 0, parent: None, children: Vec::new() });
            self.depth = Ghost(depth.push(0));
            proof {
                let (t, _slot) = Links::alloced(m)->0;
                assert(self@ =~= t);
                lemma_alloced_wf(m, depth);
            }
            Some(s)
        }
    }
}

proof fn lemma_alloced_wf(m: TreeModel, depth: Seq<nat>)
    requires
        m.slots_wf(),
        m.linked(depth),
        Links::alloced(m) is Some,
    ensures
        ({
            let (t, s) = Links::alloced(m)->0;
            t.slots_wf() && t.linked(
                if m.free.len() > 0 {
                    depth
                } else {
                    depth.push(0)
                },
            )
        }),
{
    let (t, slot) = Links::alloced(m)->0;
    let d = if m.free.len() > 0 {
        depth
    } else {
        depth.push(0)
    };
    if m.free.len() > 0 {
        assert(m.free[m.free.len() - 1] == slot);
        assert(m.links[slot] == empty_link(m.links[slot].gen));
        assert forall|i: int| #![trigger t.free[i]] 0 <= i < t.free.len() implies 1 < t.free[i]
            < t.links.len() && !t.links[t.free[i] as int].alive by {
            assert(m.free[i] == t.free[i]);
            assert(m.free[i] != m.free[m.free.len() - 1]);
        }
        assert forall|s: int| #![trigger t.links[s]] 0 <= s < t.links.len() implies {
            &&& (t.links[s].gen as int) < id_gens()
            &&& !t.links[s].alive ==> t.links[s] == empty_link(t.links[s].gen)
            &&& !t.links[s].alive && s != 0 ==> t.free.contains(s as u32)
        } by {
            if s != slot && !t.links[s].alive && s != 0 {
                assert(!m.links[s].alive);
                let i = choose|i: int| 0 <= i < m.free.len() && m.free[i] == s as u32;
                assert(t.free[i] == s as u32);
            }
            assert((m.links[s].gen as int) < id_gens());
        }
    } else {
        assert forall|s: int| #![trigger t.links[s]] 0 <= s < t.links.len() implies {
            &&& (t.links[s].gen as int) < id_gens()
            &&& !t.links[s].alive ==> t.links[s] == empty_link(t.links[s].gen)
            &&& !t.links[s].alive && s != 0 ==> t.free.contains(s as u32)
        } by {
            if s < m.links.len() {
                assert(t.links[s] == m.links[s]);
            }
        }
    }
    assert forall|s: int, k: int|
        #![trigger t.links[s].children[k]]
        t.alive(s) && 0 <= k < t.links[s].children.len() implies {
        let c = t.links[s].children[k] as int;
        t.alive(c) && t.links[c].parent == Some(s)
    } by {
        assert(s != slot);
        assert(m.links[s].children[k] == t.links[s].children[k]);
    }
    assert forall|s: int| #![trigger t.links[s].parent] t.alive(s) && t.links[s].parent is Some implies {
        let p = t.links[s].parent->0;
        t.alive(p) && t.links[p].children.contains(s as u32) && d[p] < d[s]
    } by {
        assert(s != slot);
        assert(m.links[s].parent == t.links[s].parent);
        let p = m.links[s].parent->0;
        assert(m.alive(p));
        assert(p != slot || m.free.len() == 0);
    }
}

// ---- moving nodes -------------------------------------------------------------------------

/// The first place of `a` in a list; its length where it is not there.
pub open spec fn place_of(children: Seq<u32>, a: int) -> int
    decreases children.len(),
{
    if children.len() == 0 || children[0] == a {
        0
    } else {
        1 + place_of(children.drop_first(), a)
    }
}

pub proof fn lemma_place_of(children: Seq<u32>, a: int)
    ensures
        0 <= place_of(children, a) <= children.len(),
        place_of(children, a) < children.len() ==> children[place_of(children, a)] == a,
        forall|i: int| 0 <= i < place_of(children, a) ==> children[i] != a,
    decreases children.len(),
{
    if children.len() > 0 && children[0] != a {
        lemma_place_of(children.drop_first(), a);
        let rest = children.drop_first();
        assert forall|i: int| 0 <= i < place_of(children, a) implies children[i] != a by {
            if i > 0 {
                assert(children[i] == rest[i - 1]);
            }
        }
    }
}

proof fn lemma_detached_up(m: TreeModel, depth: Seq<nat>, c: int, s: int, n: nat)
    requires
        m.linked(depth),
        m.alive(c),
        m.alive(s),
    ensures
        m.detached(c).up(s, n) is Some ==> m.up(s, n) == m.detached(c).up(s, n),
    decreases n,
{
    if n > 0 {
        lemma_detached_up(m, depth, c, s, (n - 1) as nat);
        lemma_up_depth(m, depth, s, (n - 1) as nat);
        assert(m.links[c].parent is Some ==> m.alive(m.links[c].parent->0));
    }
}

impl TreeModel {
    /// A node can go under `p`, before `anchor` where there is one: the node is
    /// not the root, `p` is neither it nor below it, and the anchor is another
    /// child of `p`.
    pub open spec fn can_insert(self, p: int, c: int, anchor: Option<int>) -> bool {
        &&& c != root_slot()
        &&& !self.below(c, p)
        &&& anchor matches Some(a) ==> a != c && self.links[a].parent == Some(p)
    }

    /// The links after `c` was moved under `p`, before `anchor` or to the end.
    pub open spec fn inserted(self, p: int, c: int, anchor: Option<int>) -> TreeModel {
        let loose = self.detached(c);
        let kids = loose.links[p].children;
        loose.attached(
            p,
            c,
            match anchor {
                Some(a) => place_of(kids, a),
                None => kids.len() as int,
            },
        )
    }

    /// The links after the node that `child` names was moved under the one
    /// that `parent` names, before the one that `anchor` names or, for 0, to
    /// the end. Nothing changes where an id is stale or the move is not
    /// possible.
    pub open spec fn moved(self, parent: int, child: int, anchor: int) -> Option<TreeModel> {
        match (self.resolves(parent), self.resolves(child)) {
            (Some(p), Some(c)) => {
                let a = if anchor == 0 {
                    None
                } else {
                    self.resolves(anchor)
                };
                if (anchor != 0 && a is None) || !self.can_insert(p, c, a) {
                    None
                } else {
                    Some(self.inserted(p, c, a))
                }
            },
            _ => None,
        }
    }

    /// The links after the node that `child` names was taken from under the
    /// one that `parent` names; nothing where it is not there.
    pub open spec fn removed(self, parent: int, child: int) -> Option<TreeModel> {
        match (self.resolves(parent), self.resolves(child)) {
            (Some(p), Some(c)) => if self.links[c].parent == Some(p) {
                Some(self.detached(c))
            } else {
                None
            },
            _ => None,
        }
    }
}

/// A move takes the node from where it was: afterwards it is a child of its
/// new parent alone, right before the anchor or at the end, and all other
/// lists of children are as they were but for it.
pub proof fn law_insert_is_a_move(m: TreeModel, depth: Seq<nat>, p: int, c: int, anchor: Option<int>)
    requires
        m.slots_wf(),
        m.linked(depth),
        m.alive(p),
        m.alive(c),
        anchor matches Some(a) ==> m.alive(a),
        m.can_insert(p, c, anchor),
    ensures
        ({
            let t = m.inserted(p, c, anchor);
            let kids = t.links[p].children;
            let k = place_of(kids, c);
            &&& t.links[c].parent == Some(p)
            &&& t.links[c].children == m.links[c].children
            &&& k < kids.len() && kids[k] == c
            &&& anchor matches Some(a) ==> k + 1 < kids.len() && kids[k + 1] == a
            &&& anchor is None ==> k + 1 == kids.len()
            &&& forall|q: int|
                m.alive(q) && q != p ==> (#[trigger] t.links[q]).children == dropped(
                    m.links[q].children,
                    c,
                ) && !t.links[q].children.contains(c as u32)
            &&& forall|x: u32|
                x != c ==> (kids.contains(x) <==> m.links[p].children.contains(x))
        }),
{
    let loose = m.detached(c);
    let t = m.inserted(p, c, anchor);
    lemma_detached_wf(m, depth, c);
    lemma_below_step(m, c, c);
    assert(p != c);
    let before = loose.links[p].children;
    let kids = t.links[p].children;
    assert(before == dropped(m.links[p].children, c)) by {
        if m.links[c].parent != Some(p) {
            lemma_not_child(m, depth, p, c);
        }
    }
    lemma_dropped(m.links[p].children, c);
    let at = match anchor {
        Some(a) => place_of(before, a),
        None => before.len() as int,
    };
    lemma_place_of(before, match anchor {
        Some(a) => a,
        None => 0,
    });
    if anchor is Some {
        let a = anchor->0;
        assert(m.links[p].children.contains(a as u32));
        assert(before.contains(a as u32));
        let j = choose|j: int| 0 <= j < before.len() && before[j] == a as u32;
        assert(at <= j);
    }
    assert(kids == before.insert(at, c as u32));
    lemma_insert(before, at, c as u32);
    lemma_place_of(kids, c);
    assert(kids[at] == c);
    let k = place_of(kids, c);
    assert(k == at) by {
        if k < at {
            assert(kids[k] == before[k]);
            assert(before.contains(c as u32));
        }
    }
    assert forall|q: int| m.alive(q) && q != p implies (#[trigger] t.links[q]).children == dropped(
        m.links[q].children,
        c,
    ) && !t.links[q].children.contains(c as u32) by {
        if m.links[c].parent != Some(q) {
            lemma_not_child(m, depth, q, c);
        }
        lemma_dropped(m.links[q].children, c);
        if q == c {
            lemma_self_not_child(m, depth, c);
        }
    }
}

pub proof fn lemma_not_child(m: TreeModel, depth: Seq<nat>, q: int, c: int)
    requires
        m.slots_wf(),
        m.linked(depth),
        m.alive(q),
        m.alive(c),
        m.links[c].parent != Some(q),
    ensures
        dropped(m.links[q].children, c) == m.links[q].children,
{
    let kids = m.links[q].children;
    assert(!kids.contains(c as u32)) by {
        if kids.contains(c as u32) {
            let j = choose|j: int| 0 <= j < kids.len() && kids[j] == c as u32;
            assert(m.links[q].children[j] == c as u32);
        }
    }
    lemma_dropped_none(kids, c);
}

proof fn lemma_self_not_child(m: TreeModel, depth: Seq<nat>, c: int)
    requires
        m.slots_wf(),
        m.linked(depth),
        m.alive(c),
    ensures
        m.links[c].parent != Some(c),
{
}

pub proof fn lemma_dropped_none(children: Seq<u32>, c: int)
    requires
        0 <= c <= u32::MAX,
        !children.contains(c as u32),
    ensures
        dropped(children, c) == children,
    decreases children.len(),
{
    if children.len() > 0 {
        let init = children.drop_last();
        assert(children.contains(children.last()));
        assert(!init.contains(c as u32)) by {
            if init.contains(c as u32) {
                let i = choose|i: int| 0 <= i < init.len() && init[i] == c as u32;
                assert(children[i] == c as u32);
            }
        }
        lemma_dropped_none(init, c);
        assert(init.push(children.last()) =~= children);
    }
}

impl Links {
    /// Whether `s` is `top` or below it.
    pub fn is_in_subtree(&self, top: u32, s: u32) -> (r: bool)
        requires
            self.wf(),
            self@.alive(s as int),
        ensures
            r == self@.below(top as int, s as int),
    {
        let mut cur: u32 = s;
        loop
            invariant
                self.wf(),
                self@.alive(cur as int),
                self@.below(top as int, cur as int) == self@.below(top as int, s as int),
            decreases self.depth@[cur as int],
        {
            proof {
                lemma_below_step(self@, top as int, cur as int);
                assert(self@.links[cur as int] == self.slots@[cur as int]@);
            }
            if cur == top {
                return true;
            }
            match self.slots[cur as usize].parent {
                Some(p) => {
                    proof {
                        assert(self@.links[cur as int].parent == Some(p as int));
                    }
                    cur = p;
                },
                None => {
                    return false;
                },
            }
        }
    }

    /// Unlinks a node from its parent.
    pub fn detach(&mut self, c: u32)
        requires
            old(self).wf(),
            old(self)@.alive(c as int),
        ensures
            final(self).wf(),
            final(self)@ == old(self)@.detached(c as int),
            final(self).depth == old(self).depth,
    {
        let ghost m = self@;
        proof {
            lemma_detached_wf(m, self.depth@, c as int);
            assert(m.links[c as int] == self.slots@[c as int]@);
        }
        match self.slots[c as usize].parent {
            None => {},
            Some(p) => {
                proof {
                    assert(m.links[c as int].parent == Some(p as int));
                    assert(m.alive(p as int));
                    assert(m.links[p as int] == self.slots@[p as int]@);
                }
                let kept: Vec<u32> = remove_value(&self.slots[p as usize].children, c);
                self.slots[p as usize].children = kept;
                self.slots[c as usize].parent = None;
                proof {
                    assert(self@.links =~= m.detached(c as int).links);
                }
            },
        }
    }

    fn find_place(&self, p: u32, a: u32) -> (k: usize)
        requires
            p < self.slots@.len(),
        ensures
            k == place_of(self.slots@[p as int].children@, a as int),
            k <= self.slots@[p as int].children@.len(),
    {
        let kids = &self.slots[p as usize].children;
        let mut k: usize = 0;
        proof {
            assert(kids@.skip(0) =~= kids@);
            lemma_place_of(kids@, a as int);
        }
        while k < kids.len() && kids[k] != a
            invariant
                k <= kids@.len(),
                k + place_of(kids@.skip(k as int), a as int) == place_of(kids@, a as int),
            decreases kids@.len() - k,
        {
            proof {
                assert(kids@.skip(k as int).drop_first() =~= kids@.skip(k + 1));
            }
            k = k + 1;
        }
        k
    }

    /// Moves a node, as `TreeModel::moved` says. Returns whether it did.
    pub fn insert_before(&mut self, parent: i32, child: i32, anchor: i32) -> (r: bool)
        requires
            old(self).wf(),
        ensures
            final(self).wf(),
            r <==> old(self)@.moved(parent as int, child as int, anchor as int) is Some,
            r ==> final(self)@ == old(self)@.moved(parent as int, child as int, anchor as int)->0,
            !r ==> *final(self) == *old(self),
    {
        let ghost m = self@;
        let (p, c) = match (self.resolve(parent), self.resolve(child)) {
            (Some(p), Some(c)) => (p, c),
            _ => return false,
        };
        let a: Option<u32> = if anchor == 0 {
            None
        } else {
            match self.resolve(anchor) {
                Some(a) => Some(a),
                None => return false,
            }
        };
        if c == 1 || self.is_in_subtree(c, p) {
            return false;
        }
        match a {
            Some(x) => {
                proof {
                    assert(m.links[x as int] == self.slots@[x as int]@);
                }
                if x == c {
                    return false;
                }
                match self.slots[x as usize].parent {
                    Some(q) => {
                        if q != p {
                            return false;
                        }
                    },
                    None => {
                        return false;
                    },
                }
            },
            None => {},
        }
        proof {
            lemma_below_step(m, c as int, c as int);
            lemma_detached_wf(m, self.depth@, c as int);
        }
        self.detach(c);
        let ghost loose = self@;
        let ghost depth = self.depth@;
        proof {
            assert(!loose.below(c as int, p as int)) by {
                if loose.below(c as int, p as int) {
                    let n = choose|n: nat| #[trigger] loose.up(p as int, n) == Some(c as int);
                    lemma_self_not_child(m, depth, c as int);
                    lemma_detached_up(m, depth, c as int, p as int, n);
                    assert(m.up(p as int, n) == Some(c as int));
                }
            }
            assert(loose.alive(p as int));
            assert(loose.links[p as int] == self.slots@[p as int]@);
        }
        let k: usize = match a {
            Some(x) => self.find_place(p, x),
            None => self.slots[p as usize].children.len(),
        };
        proof {
            lemma_attached_wf(loose, depth, p as int, c as int, k as int);
        }
        self.slots[p as usize].children.insert(k, c);
        self.slots[c as usize].parent = Some(p);
        self.depth = Ghost(sunk(loose, depth, p as int, c as int));
        proof {
            assert(self@.links =~= loose.attached(p as int, c as int, k as int).links);
        }
        true
    }

    /// Takes a node from under its parent, as `TreeModel::removed` says.
    /// Returns whether it did.
    pub fn remove_child(&mut self, parent: i32, child: i32) -> (r: bool)
        requires
            old(self).wf(),
        ensures
            final(self).wf(),
            r <==> old(self)@.removed(parent as int, child as int) is Some,
            r ==> final(self)@ == old(self)@.removed(parent as int, child as int)->0,
            !r ==> *final(self) == *old(self),
    {
        let (p, c) = match (self.resolve(parent), self.resolve(child)) {
            (Some(p), Some(c)) => (p, c),
            _ => return false,
        };
        proof {
            assert(self@.links[c as int] == self.slots@[c as int]@);
        }
        match self.slots[c as usize].parent {
            Some(q) => {
                if q != p {
                    return false;
                }
            },
            None => {
                return false;
            },
        }
        self.detach(c);
        true
    }
}

// ---- destroying nodes ---------------------------------------------------------------------

/// The generation after `gen`.
pub open spec fn next_gen(gen: u16) -> u16 {
    ((gen as int + 1) % id_gens()) as u16
}

impl TreeModel {
    /// `list` holds `top` first and everything else below it, once each.
    pub open spec fn lists_subtree(self, top: int, list: Seq<u32>) -> bool {
        &&& list.no_duplicates()
        &&& list.len() > 0 && list[0] == top
        &&& forall|s: int|
            0 <= s < self.links.len() ==> (list.contains(#[trigger] (s as u32)) <==> self.alive(s)
                && self.below(top, s))
        &&& forall|i: int| 0 <= i < list.len() ==> (#[trigger] list[i] as int) < self.links.len()
    }

    /// The links with the slots of `list` released.
    pub open spec fn released(self, list: Seq<u32>) -> TreeModel {
        TreeModel {
            links: Seq::new(
                self.links.len(),
                |s: int|
                    if list.contains(s as u32) {
                        empty_link(next_gen(self.links[s].gen))
                    } else {
                        self.links[s]
                    },
            ),
            free: self.free + list,
        }
    }
}

proof fn lemma_list_fits(list: Seq<u32>, n: int)
    requires
        list.no_duplicates(),
        forall|i: int| 0 <= i < list.len() ==> (#[trigger] list[i] as int) < n,
        0 <= n,
    ensures
        list.len() <= n,
{
    let ints = list.map_values(|v: u32| v as int);
    let all = vstd::set_lib::set_int_range(0, n);
    vstd::set_lib::lemma_int_range(0, n);
    assert(ints.no_duplicates());
    ints.unique_seq_to_set();
    assert(ints.to_set().subset_of(all)) by {
        assert forall|v: int| ints.to_set().contains(v) implies all.contains(v) by {
            let i = choose|i: int| 0 <= i < ints.len() && ints[i] == v;
            assert(ints[i] == list[i] as int);
        }
    }
    vstd::set_lib::lemma_len_subset(ints.to_set(), all);
}

/// A list that holds `top` and with every node its children holds everything
/// below `top`.
proof fn lemma_closed(m: TreeModel, depth: Seq<nat>, top: int, list: Seq<u32>, s: int, n: nat)
    requires
        m.linked(depth),
        m.slots_wf(),
        m.alive(s),
        m.up(s, n) == Some(top),
        list.contains(top as u32),
        forall|i: int, k: int|
            #![trigger m.links[list[i] as int].children[k]]
            0 <= i < list.len() && 0 <= k < m.links[list[i] as int].children.len()
                ==> list.contains(m.links[list[i] as int].children[k]),
    ensures
        list.contains(s as u32),
    decreases n,
{
    if n > 0 {
        lemma_below_step(m, top, s);
        let b = m.links[s].parent;
        if b is None {
            lemma_up_none(m, s, n);
        } else {
            let p = b->0;
            lemma_up_shift(m, s, p, (n - 1) as nat);
            assert(((n - 1) as nat) + 1 == n);
            assert(m.alive(p) && m.links[p].children.contains(s as u32));
            lemma_closed(m, depth, top, list, p, (n - 1) as nat);
            let i = choose|i: int| 0 <= i < list.len() && list[i] == p as u32;
            let kids = m.links[p].children;
            let k = choose|k: int| 0 <= k < kids.len() && kids[k] == s as u32;
            assert(m.links[list[i] as int].children[k] == s as u32);
        }
    }
}

impl Links {
    /// Lists a detached node and all nodes below it.
    pub fn collect_subtree(&self, top: u32) -> (list: Vec<u32>)
        requires
            self.wf(),
            self@.alive(top as int),
            self@.links[top as int].parent is None,
        ensures
            self@.lists_subtree(top as int, list@),
    {
        let ghost m = self@;
        let ghost depth = self.depth@;
        let mut list: Vec<u32> = Vec::new();
        list.push(top);
        let mut i: usize = 0;
        proof {
            lemma_below_step(m, top as int, top as int);
            lemma_list_fits(list@, m.links.len() as int);
        }
        while i < list.len()
            invariant
                self.wf(),
                m == self@,
                depth == self.depth@,
                m.links[top as int].parent is None,
                i <= list@.len() <= m.links.len(),
                list@.len() > 0,
                list@[0] == top,
                list@.no_duplicates(),
                forall|j: int|
                    #![trigger list@[j]]
                    0 <= j < list@.len() ==> m.alive(list@[j] as int) && m.below(
                        top as int,
                        list@[j] as int,
                    ),
                forall|j: int|
                    #![trigger list@[j]]
                    1 <= j < list@.len() ==> m.links[list@[j] as int].parent is Some && list@.take(
                        i as int,
                    ).contains(m.links[list@[j] as int].parent->0 as u32),
                forall|j: int, k: int|
                    #![trigger m.links[list@[j] as int].children[k]]
                    0 <= j < i && 0 <= k < m.links[list@[j] as int].children.len()
                        ==> list@.contains(m.links[list@[j] as int].children[k]),
            decreases m.links.len() - i,
        {
            let s: u32 = list[i];
            let ghost start = list@;
            let kids = &self.slots[s as usize].children;
            let mut k: usize = 0;
            proof {
                assert(m.alive(s as int));
                assert(m.links[s as int] == self.slots@[s as int]@);
                assert(kids@ == m.links[s as int].children);
            }
            while k < kids.len()
                invariant
                    self.wf(),
                    m == self@,
                    depth == self.depth@,
                    m.links[top as int].parent is None,
                    i < start.len() <= list@.len() <= m.links.len(),
                    k <= kids@.len(),
                    s == start[i as int],
                    m.alive(s as int),
                    m.below(top as int, s as int),
                    kids@ == m.links[s as int].children,
                    start.no_duplicates(),
                    list@ == start + kids@.take(k as int),
                    list@.no_duplicates(),
                    start.len() > 0,
                    start[0] == top,
                    forall|j: int|
                        #![trigger start[j]]
                        0 <= j < start.len() ==> m.alive(start[j] as int) && m.below(
                            top as int,
                            start[j] as int,
                        ),
                    forall|j: int|
                        #![trigger start[j]]
                        1 <= j < start.len() ==> m.links[start[j] as int].parent is Some
                            && start.take(i as int).contains(
                            m.links[start[j] as int].parent->0 as u32,
                        ),
                decreases kids@.len() - k,
            {
                let c: u32 = kids[k];
                let ghost before = list@;
                proof {
                    assert(m.links[s as int].children[k as int] == c);
                    assert(m.alive(c as int) && m.links[c as int].parent == Some(s as int));
                    assert(!before.contains(c)) by {
                        if before.contains(c) {
                            let j = choose|j: int| 0 <= j < before.len() && before[j] == c;
                            if j < start.len() {
                                assert(start[j] == c);
                                if j >= 1 {
                                    assert(start.take(i as int).contains(s));
                                    let z = choose|z: int|
                                        0 <= z < i && start.take(i as int)[z] == s;
                                    assert(start[z] == start[i as int]);
                                }
                            } else {
                                assert(kids@[j - start.len()] == c);
                            }
                        }
                    }
                }
                list.push(c);
                proof {
                    lemma_push_no_duplicates(before, c);
                    assert(kids@.take(k + 1) =~= kids@.take(k as int).push(c));
                    assert(list@ =~= start + kids@.take(k + 1));
                    assert forall|j: int| 0 <= j < list@.len() implies (#[trigger] list@[j] as int)
                        < m.links.len() by {
                        if j < start.len() {
                            assert(list@[j] == start[j]);
                            assert(m.alive(start[j] as int));
                        } else {
                            let z = j - start.len();
                            assert(list@[j] == kids@[z]);
                            assert(m.links[s as int].children[z] == kids@[z]);
                        }
                    }
                    lemma_list_fits(list@, m.links.len() as int);
                }
                k = k + 1;
            }
            proof {
                assert(kids@.take(k as int) =~= kids@);
                let all = list@;
                assert forall|j: int| #![trigger all[j]] 0 <= j < all.len() implies m.alive(
                    all[j] as int,
                ) && m.below(top as int, all[j] as int) by {
                    if j < start.len() {
                        assert(all[j] == start[j]);
                    } else {
                        let z = j - start.len();
                        assert(all[j] == m.links[s as int].children[z]);
                        lemma_below_step(m, top as int, all[j] as int);
                    }
                }
                assert(all.take(i + 1).contains(s)) by {
                    assert(all.take(i + 1)[i as int] == s);
                }
                assert forall|j: int|
                    #![trigger all[j]]
                    1 <= j < all.len() implies m.links[all[j] as int].parent is Some && all.take(
                    i + 1,
                ).contains(m.links[all[j] as int].parent->0 as u32) by {
                    if j < start.len() {
                        assert(all[j] == start[j]);
                        let q = m.links[start[j] as int].parent->0 as u32;
                        let z = choose|z: int| 0 <= z < i && start.take(i as int)[z] == q;
                        assert(all.take(i + 1)[z] == q);
                    } else {
                        let z = j - start.len();
                        assert(all[j] == m.links[s as int].children[z]);
                    }
                }
                assert forall|j: int, x: int|
                    #![trigger m.links[all[j] as int].children[x]]
                    0 <= j < i + 1 && 0 <= x < m.links[all[j] as int].children.len() implies all.contains(
                m.links[all[j] as int].children[x]) by {
                    assert(all[j] == start[j]);
                    if j < i {
                        let v = m.links[start[j] as int].children[x];
                        assert(start.contains(v));
                        let z = choose|z: int| 0 <= z < start.len() && start[z] == v;
                        assert(all[z] == v);
                    } else {
                        assert(all[start.len() + x] == kids@[x]);
                    }
                }
            }
            i = i + 1;
        }
        proof {
            assert(list@.contains(top)) by {
                assert(list@[0] == top);
            }
            assert forall|s: int| 0 <= s < m.links.len() implies (list@.contains(
                #[trigger] (s as u32),
            ) <==> m.alive(s) && m.below(top as int, s)) by {
                if m.alive(s) && m.below(top as int, s) {
                    let n = choose|n: nat| #[trigger] m.up(s, n) == Some(top as int);
                    lemma_closed(m, depth, top as int, list@, s, n);
                }
                if list@.contains(s as u32) {
                    let j = choose|j: int| 0 <= j < list@.len() && list@[j] == s as u32;
                    assert(m.alive(list@[j] as int));
                }
            }
            assert forall|j: int| 0 <= j < list@.len() implies (#[trigger] list@[j] as int)
                < m.links.len() by {
                assert(m.alive(list@[j] as int));
            }
        }
        list
    }
}

proof fn lemma_released_wf(m: TreeModel, depth: Seq<nat>, top: int, list: Seq<u32>)
    requires
        m.slots_wf(),
        m.linked(depth),
        m.alive(top),
        top != root_slot(),
        m.links[top].parent is None,
        m.lists_subtree(top, list),
    ensures
        m.released(list).slots_wf(),
        m.released(list).linked(depth),
{
    let t = m.released(list);
    assert(!list.contains(1u32)) by {
        lemma_below_step(m, top, 1);
        assert(list.contains(1int as u32) <==> m.alive(1) && m.below(top, 1));
    }
    assert(!list.contains(0u32)) by {
        assert(list.contains(0int as u32) <==> m.alive(0) && m.below(top, 0));
    }
    assert forall|i: int, j: int|
        0 <= i < t.free.len() && 0 <= j < t.free.len() && i != j implies t.free[i] != t.free[j] by {
        let n = m.free.len() as int;
        if i < n {
            assert(t.free[i] == m.free[i]);
            assert(!m.links[m.free[i] as int].alive);
        } else {
            assert(t.free[i] == list[i - n]);
            lemma_listed(m, top, list, i - n);
        }
        if j < n {
            assert(t.free[j] == m.free[j]);
            assert(!m.links[m.free[j] as int].alive);
        } else {
            assert(t.free[j] == list[j - n]);
            lemma_listed(m, top, list, j - n);
        }
    }
    assert forall|i: int| #![trigger t.free[i]] 0 <= i < t.free.len() implies 1 < t.free[i]
        < t.links.len() && !t.links[t.free[i] as int].alive by {
        let n = m.free.len() as int;
        if i < n {
            assert(t.free[i] == m.free[i]);
        } else {
            assert(t.free[i] == list[i - n]);
            lemma_listed(m, top, list, i - n);
            assert(list.contains(list[i - n]));
        }
    }
    assert forall|s: int| #![trigger t.links[s]] 0 <= s < t.links.len() implies {
        &&& (t.links[s].gen as int) < id_gens()
        &&& !t.links[s].alive ==> t.links[s] == empty_link(t.links[s].gen)
        &&& !t.links[s].alive && s != 0 ==> t.free.contains(s as u32)
    } by {
        assert((m.links[s].gen as int) < id_gens());
        if list.contains(s as u32) {
            let i = choose|i: int| 0 <= i < list.len() && list[i] == s as u32;
            assert(t.free[m.free.len() + i] == s as u32);
        } else if !m.links[s].alive && s != 0 {
            assert(m.free.contains(s as u32));
            let i = choose|i: int| 0 <= i < m.free.len() && m.free[i] == s as u32;
            assert(t.free[i] == s as u32);
        }
    }
    assert forall|s: int, k: int|
        #![trigger t.links[s].children[k]]
        t.alive(s) && 0 <= k < t.links[s].children.len() implies {
        let c = t.links[s].children[k] as int;
        t.alive(c) && t.links[c].parent == Some(s)
    } by {
        assert(!list.contains(s as u32));
        let c = m.links[s].children[k] as int;
        assert(m.alive(c) && m.links[c].parent == Some(s));
        lemma_below_step(m, top, c);
        assert(list.contains(s as u32) <==> m.alive(s) && m.below(top, s));
        assert(list.contains(c as u32) <==> m.alive(c) && m.below(top, c));
    }
    assert forall|s: int| #![trigger t.links[s].parent] t.alive(s) && t.links[s].parent is Some implies {
        let p = t.links[s].parent->0;
        t.alive(p) && t.links[p].children.contains(s as u32) && depth[p] < depth[s]
    } by {
        assert(!list.contains(s as u32));
        assert(m.links[s].parent == t.links[s].parent);
        let p = m.links[s].parent->0;
        assert(m.alive(p) && m.links[p].children.contains(s as u32) && depth[p] < depth[s]);
        lemma_below_step(m, top, s);
        assert(list.contains(s as u32) <==> m.alive(s) && m.below(top, s));
        assert(list.contains(p as u32) <==> m.alive(p) && m.below(top, p));
    }
    assert forall|s: int| #![trigger t.links[s]] t.alive(s) implies t.links[s].children.no_duplicates() by {
        assert(t.links[s] == m.links[s]);
    }
}

proof fn lemma_listed(m: TreeModel, top: int, list: Seq<u32>, i: int)
    requires
        m.lists_subtree(top, list),
        0 <= i < list.len(),
    ensures
        m.alive(list[i] as int),
        m.below(top, list[i] as int),
{
    let s = list[i] as int;
    assert(list.contains(s as u32));
}

/// What is below a node is the same before and after it is detached.
pub proof fn lemma_detached_below(m: TreeModel, depth: Seq<nat>, c: int, s: int)
    requires
        m.slots_wf(),
        m.linked(depth),
        m.alive(c),
        m.alive(s),
    ensures
        m.detached(c).below(c, s) <==> m.below(c, s),
    decreases depth[s],
{
    let d = m.detached(c);
    if d.below(c, s) {
        let n = choose|n: nat| #[trigger] d.up(s, n) == Some(c);
        lemma_detached_up(m, depth, c, s, n);
    }
    if m.below(c, s) {
        lemma_below_step(m, c, s);
        lemma_below_step(d, c, s);
        lemma_below_step(d, c, c);
        if s != c {
            let p = m.links[s].parent->0;
            assert(m.alive(p) && depth[p] < depth[s]);
            lemma_detached_below(m, depth, c, p);
            lemma_detached_wf(m, depth, c);
            assert(d.links[s].parent == m.links[s].parent);
        }
    }
}

impl TreeModel {
    /// `t` is what is left when `top` and all below it are destroyed, and
    /// `list` the slots that were released.
    pub open spec fn destroyed(self, top: int, list: Seq<u32>, t: TreeModel) -> bool {
        &&& self.detached(top).lists_subtree(top, list)
        &&& t == self.detached(top).released(list)
    }
}

impl Links {
    /// Releases the slots of a detached node and of all nodes below it.
    pub fn release(&mut self, top: u32, list: &Vec<u32>)
        requires
            old(self).wf(),
            old(self)@.alive(top as int),
            old(self)@.links[top as int].parent is None,
            top != 1,
            old(self)@.lists_subtree(top as int, list@),
        ensures
            final(self).wf(),
            final(self)@ == old(self)@.released(list@),
    {
        let ghost m = self@;
        let ghost depth = self.depth@;
        let mut i: usize = 0;
        proof {
            assert(m.released(list@.take(0)) =~= m) by {
                assert(m.free + list@.take(0) =~= m.free);
                assert(m.released(list@.take(0)).links =~= m.links);
            }
            lemma_released_wf(m, depth, top as int, list@);
        }
        while i < list.len()
            invariant
                i <= list@.len(),
                self.depth@ == depth,
                m.slots_wf(),
                m.lists_subtree(top as int, list@),
                self@ == m.released(list@.take(i as int)),
                self.slots@.len() == m.links.len(),
            decreases list@.len() - i,
        {
            let s: u32 = list[i];
            let ghost done = list@.take(i as int);
            let ghost before = self@;
            proof {
                assert((list@[i as int] as int) < m.links.len());
                assert(!done.contains(s)) by {
                    if done.contains(s) {
                        let j = choose|j: int| 0 <= j < done.len() && done[j] == s;
                        assert(list@[j] == list@[i as int]);
                    }
                }
                assert(self@.links[s as int] == self.slots@[s as int]@);
                assert(self@.links[s as int] == m.links[s as int]);
                assert((m.links[s as int].gen as int) < id_gens());
            }
            let gen: u16 = ((self.slots[s as usize].gen as u32 + 1) % (ID_GEN_MASK + 1)) as u16;
            self.slots.set(
                s as usize,
                Link { alive: false, gen, parent: None, children: Vec::new() },
            );
            self.free.push(s);
            proof {
                let now = list@.take(i + 1);
                assert(now =~= done.push(s));
                assert(self@.free =~= m.free + now);
                assert forall|x: int| 0 <= x < m.links.len() implies self@.links[x]
                    == #[trigger] m.released(now).links[x] by {
                    lemma_push_contains(done, s, x as u32);
                    if x == s {
                        assert(gen == next_gen(m.links[x].gen));
                        assert(self@.links[x] =~= empty_link(gen));
                    } else {
                        assert(self@.links[x] == before.links[x]);
                        assert(x as u32 != s);
                    }
                }
                assert(self@.links =~= m.released(now).links);
            }
            i = i + 1;
        }
        proof {
            assert(list@.take(i as int) =~= list@);
        }
    }
}

/// A new node gets an id that named nothing before, and all other ids name what
/// they named.
pub proof fn law_new_ids_are_fresh(m: TreeModel, other: int)
    requires
        m.slots_wf(),
        Links::alloced(m) is Some,
    ensures
        ({
            let (t, s) = Links::alloced(m)->0;
            &&& t.resolves(t.id_of(s)) == Some(s)
            &&& m.resolves(t.id_of(s)) is None
            &&& t.id_of(s) > 0
            &&& other != t.id_of(s) ==> t.resolves(other) == m.resolves(other)
        }),
{
    let (t, s) = Links::alloced(m)->0;
    if m.free.len() > 0 {
        assert(m.free[m.free.len() - 1] as int == s);
    }
    let id = t.id_of(s);
    assert(id % id_space() == s && id / id_space() == t.links[s].gen as int) by {
        assert(0 <= s < id_space());
    }
    if other > 0 && other % id_space() == s && other != id {
        assert(other == (other / id_space()) * id_space() + s);
    }
}

/// Destroying a node makes the ids of it and of everything below it stale, and
/// leaves all other nodes alive under their ids.
pub proof fn law_destroy_takes_the_subtree(
    m: TreeModel,
    depth: Seq<nat>,
    top: int,
    list: Seq<u32>,
    t: TreeModel,
    s: int,
)
    requires
        m.slots_wf(),
        m.linked(depth),
        m.alive(top),
        top != root_slot(),
        m.destroyed(top, list, t),
        m.alive(s),
    ensures
        list.contains(s as u32) <==> m.below(top, s),
        m.below(top, s) ==> t.resolves(m.id_of(s)) is None,
        !m.below(top, s) ==> t.resolves(m.id_of(s)) == Some(s),
        !m.below(top, s) && m.links[top].parent != Some(s) ==> t.links[s] == m.links[s],
{
    let d = m.detached(top);
    lemma_detached_wf(m, depth, top);
    lemma_detached_below(m, depth, top, s);
    assert(d.alive(s) <==> m.alive(s));
    assert(list.contains(s as u32) <==> d.alive(s) && d.below(top, s));
    assert(d.links[s].gen == m.links[s].gen);
    let id = m.id_of(s);
    assert(id % id_space() == s && id / id_space() == m.links[s].gen as int) by {
        assert(0 <= s < id_space());
    }
    assert((m.links[s].gen as int) < id_gens());
    if !m.below(top, s) {
        lemma_below_step(m, top, top);
        assert(s != top);
    }
}

/// A node finds a slot as long as there is one: ids run out only when all slots
/// are taken.
pub proof fn law_nodes_find_a_slot(m: TreeModel)
    requires
        m.slots_wf(),
        Links::alloced(m) is None,
    ensures
        m.links.len() == 0x1_0000,
        forall|s: int| 0 < s < m.links.len() ==> (#[trigger] m.links[s]).alive,
{
    assert forall|s: int| 0 < s < m.links.len() implies (#[trigger] m.links[s]).alive by {
        if !m.links[s].alive {
            assert(m.free.contains(s as u32));
        }
    }
}

/// When a move happens: both nodes are there, the child is not the root of all,
/// the parent is neither the child nor below it, and the anchor is none or
/// another child of the parent.
pub proof fn law_when_moves_happen(m: TreeModel, parent: int, child: int, anchor: int)
    requires
        m.resolves(parent) is Some,
        m.resolves(child) is Some,
    ensures
        ({
            let (p, c) = (m.resolves(parent)->0, m.resolves(child)->0);
            m.moved(parent, child, anchor) is Some <==> c != 1 && !m.below(c, p) && (anchor == 0 || (
            m.resolves(anchor) matches Some(a) && a != c && m.links[a].parent == Some(p)))
        }),
        m.moved(parent, child, anchor) matches Some(t) ==> t == m.inserted(
            m.resolves(parent)->0,
            m.resolves(child)->0,
            if anchor == 0 {
                None
            } else {
                m.resolves(anchor)
            },
        ),
{
}

/// An id holds the slot in its low sixteen bits and the generation above them, and
/// is never negative.
pub proof fn law_ids_hold_slots(m: TreeModel, s: int)
    requires
        0 <= s < 0x1_0000,
        m.links[s].gen < 0x8000,
    ensures
        m.id_of(s) % 0x1_0000 == s,
        m.id_of(s) / 0x1_0000 == m.links[s].gen as int,
        0 <= m.id_of(s) <= i32::MAX,
        next_gen(m.links[s].gen) < 0x8000,
        m.links[s].gen < 0x7fff ==> next_gen(m.links[s].gen) == m.links[s].gen + 1,
        m.links[s].gen == 0x7fff ==> next_gen(m.links[s].gen) == 0,
{
}

} // verus!
