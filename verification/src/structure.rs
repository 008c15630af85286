//! What operations do to the tree, and what of the tree is painted, hit and
//! read.
use crate::clip::{clip_steps, crosses, next_corner, steps_at, ClipStep};
use crate::drawlist::{
    law_packed_words_unpack, op_len, surface_at, surface_record, surfaces_from, text_record,
    CompositorSurfaceFrame, TextHead,
};
use crate::order::{is_stable_order, law_order_is_a_permutation, law_sorted_is_stable, stable_sorted};
use crate::paint::BoxStep;
use crate::plan::{PaintFacts, PaintStep};
use crate::restyle::Rules;
use crate::scene::{node_value, NodeModel, Scene, SceneModel};
use crate::style::PropTable;
use crate::tree::{dropped, lemma_dropped, Links, TreeModel};
use crate::ui::UiModel;
use crate::walk::{lemma_painted_is_lower, HitFacts};
use vstd::prelude::*;

verus! {

// ---- the order of children ---------------------------------------------------------------------

proof fn lemma_dropped_filters(children: Seq<u32>, c: u32)
    ensures
        dropped(children, c as int) == children.filter(|x: u32| x != c),
    decreases children.len(),
{
    reveal(Seq::filter);
    if children.len() > 0 {
        lemma_dropped_filters(children.drop_last(), c);
    }
}

proof fn lemma_insert_filters(children: Seq<u32>, k: int, c: u32)
    requires
        0 <= k <= children.len(),
    ensures
        children.insert(k, c).filter(|x: u32| x != c) == children.filter(|x: u32| x != c),
{
    let keep = |x: u32| x != c;
    let (a, b) = (children.take(k), children.skip(k));
    assert(children =~= a + b);
    assert(children.insert(k, c) =~= a + seq![c] + b);
    Seq::filter_distributes_over_add(a, b, keep);
    Seq::filter_distributes_over_add(a + seq![c], b, keep);
    Seq::filter_distributes_over_add(a, seq![c], keep);
    assert(seq![c].filter(keep) =~= Seq::<u32>::empty()) by {
        let one = seq![c];
        let none = one.drop_last();
        assert(none =~= Seq::<u32>::empty());
        assert(!keep(one.last()));
        assert(none.filter(keep).len() <= none.len()) by {
            none.lemma_filter_len(keep);
        }
        reveal(Seq::filter);
    }
    assert(a.filter(keep) + Seq::<u32>::empty() =~= a.filter(keep));
}

/// A move leaves the other children of every node as they were, in their order.
#[verifier::rlimit(50)]
pub proof fn law_siblings_keep_their_order(
    m: TreeModel,
    depth: Seq<nat>,
    p: int,
    c: int,
    anchor: Option<int>,
    q: int,
)
    requires
        m.slots_wf(),
        m.linked(depth),
        m.alive(p),
        m.alive(c),
        anchor matches Some(a) ==> m.alive(a),
        m.can_insert(p, c, anchor),
        m.alive(q),
    ensures
        m.inserted(p, c, anchor).links[q].children.filter(|x: u32| x != c as u32)
            == m.links[q].children.filter(|x: u32| x != c as u32),
        m.inserted(p, c, anchor).alive(q),
        m.inserted(p, c, anchor).links[q].gen == m.links[q].gen,
{
    let t = m.inserted(p, c, anchor);
    let loose = m.detached(c);
    crate::tree::lemma_detached_wf(m, depth, c);
    crate::tree::law_insert_is_a_move(m, depth, p, c, anchor);
    assert(m.alive(c) && (c as u32) as int == c) by {
        assert(m.links[c].alive);
    }
    lemma_dropped_filters(m.links[q].children, c as u32);
    lemma_dropped_filters(loose.links[q].children, c as u32);
    crate::tree::lemma_below_step(m, c, c);
    assert(loose.links[q].children == m.links[q].children || loose.links[q].children == dropped(
        m.links[q].children,
        c,
    ));
    lemma_dropped_twice(m.links[q].children, c);
    if q == p {
        let kids = loose.links[p].children;
        let k = match anchor {
            Some(a) => crate::tree::place_of(kids, a),
            None => kids.len() as int,
        };
        crate::tree::lemma_place_of(
            kids,
            match anchor {
                Some(a) => a,
                None => 0,
            },
        );
        lemma_insert_filters(kids, k, c as u32);
        assert(t.links[p].children == kids.insert(k, c as u32));
    } else {
        assert(t.links[q].children == loose.links[q].children);
    }
}

proof fn lemma_dropped_twice(children: Seq<u32>, c: int)
    ensures
        dropped(dropped(children, c), c) == dropped(children, c),
    decreases children.len(),
{
    if children.len() > 0 {
        lemma_dropped_twice(children.drop_last(), c);
        if children.last() != c {
            let d = dropped(children.drop_last(), c);
            assert(d.push(children.last()).drop_last() =~= d);
        }
    }
}

/// Taking a child from under its parent leaves it without one, with all that is
/// below it, and its siblings in their order; a node that is no child of that
/// parent stays where it is.
pub proof fn law_removed_child_is_loose(
    m: TreeModel,
    depth: Seq<nat>,
    parent: int,
    child: int,
    q: int,
)
    requires
        m.slots_wf(),
        m.linked(depth),
        m.resolves(parent) is Some,
        m.resolves(child) is Some,
        m.alive(q),
    ensures
        ({
            let (p, c) = (m.resolves(parent)->0, m.resolves(child)->0);
            let t = m.removed(parent, child);
            &&& t is Some <==> m.links[c].parent == Some(p)
            &&& t matches Some(n) ==> {
                &&& n.links[c].parent is None
                &&& n.links[c].children == m.links[c].children
                &&& n.links[q].children == m.links[q].children.filter(|x: u32| x != c as u32)
                &&& q != c ==> n.links[q].parent == m.links[q].parent
            }
        }),
{
    let (p, c) = (m.resolves(parent)->0, m.resolves(child)->0);
    if m.links[c].parent == Some(p) {
        crate::tree::lemma_detached_wf(m, depth, c);
        assert(m.links[c].alive);
        lemma_dropped_filters(m.links[q].children, c as u32);
        if q != p {
            crate::tree::lemma_not_child(m, depth, q, c);
            crate::tree::lemma_dropped_none(m.links[q].children, c);
        }
        assert(depth[p] < depth[c]);
    }
}

/// A new node is blank and stands alone: of its kind, without parent, children,
/// style, values, text or picture. All other nodes stay.
pub proof fn law_new_nodes_are_blank(m: SceneModel, kind: u8, o: int)
    requires
        m.tree.slots_wf(),
        m.nodes.len() == m.tree.links.len(),
        Scene::created(m, kind) is Some,
        m.tree.alive(o),
    ensures
        ({
            let (n, s) = Scene::created(m, kind)->0;
            let b = n.nodes[s];
            &&& n.tree.alive(s) && !m.tree.alive(s)
            &&& n.tree.links[s].parent is None && n.tree.links[s].children.len() == 0
            &&& b.kind == kind && b.style_id == -1 && !b.initialized && !b.focused && !b.active
            &&& forall|p: int|
                #![trigger b.overrides[p]]
                0 <= p < 256 ==> b.overrides[p] is None && b.anims[p] is None
            &&& b.text.len() == 0 && b.tex == -1 && b.sprite.frames == 0 && b.surface == -1
            &&& n.nodes[o] == m.nodes[o] && n.tree.links[o] == m.tree.links[o]
            &&& n.tracks == m.tracks && n.timelines == m.timelines && n.focused == m.focused
        }),
{
    let (n, s) = Scene::created(m, kind)->0;
    if m.tree.free.len() > 0 {
        assert(m.tree.free[m.tree.free.len() - 1] == s);
        assert(m.tree.links[s] == crate::tree::empty_link(m.tree.links[s].gen));
    }
}

// ---- painting -------------------------------------------------------------------------------------

/// Every child of a node is one of its painted children.
proof fn lemma_child_is_painted(m: SceneModel, r: Rules, s: int, k: int) -> (i: int)
    requires
        m.tree.is_tree(),
        m.tree.alive(s),
        0 <= k < m.tree.links[s].children.len() <= usize::MAX,
    ensures
        0 <= i < m.tree.links[s].children.len(),
        m.painted_children(r, s)[i] == m.tree.links[s].children[k],
{
    let kids = m.tree.links[s].children;
    let keys = m.z_keys(r, s);
    let n = kids.len() as int;
    law_sorted_is_stable(keys, n);
    let order = stable_sorted(keys, n);
    law_order_is_a_permutation(keys, n, order);
    assert(order.contains(k as usize));
    let i = choose|i: int| 0 <= i < order.len() && order[i] == k as usize;
    i
}

proof fn lemma_plan_below_holds(
    m: SceneModel,
    r: Rules,
    facts: Seq<PaintFacts>,
    frame: u64,
    inspected: Option<u32>,
    s: int,
    k: int,
    i: int,
    j: int,
)
    requires
        m.tree.is_tree(),
        m.tree.alive(s),
        0 <= i < k <= m.tree.links[s].children.len() <= usize::MAX,
        0 <= j < m.plan(r, facts, frame, inspected, m.painted_children(r, s)[i] as int).len(),
    ensures
        m.plan_below(r, facts, frame, inspected, s, k).contains(
            m.plan(r, facts, frame, inspected, m.painted_children(r, s)[i] as int)[j],
        ),
    decreases k,
{
    let all = m.plan_below(r, facts, frame, inspected, s, k);
    let before = m.plan_below(r, facts, frame, inspected, s, k - 1);
    let c = m.painted_children(r, s)[k - 1] as int;
    let own = m.plan(r, facts, frame, inspected, c);
    assert(all == before + own);
    let want = m.plan(r, facts, frame, inspected, m.painted_children(r, s)[i] as int)[j];
    if i < k - 1 {
        lemma_plan_below_holds(m, r, facts, frame, inspected, s, k - 1, i, j);
        let x = choose|x: int| 0 <= x < before.len() && before[x] == want;
        assert(all[x] == want);
    } else {
        assert(all[before.len() + j] == want);
    }
}

/// All that is painted for a child is painted for its parent too, unless the
/// parent is not shown, is fully transparent, is text, clips all away, or shows
/// what is below it in perspective.
pub proof fn law_children_are_painted(
    m: SceneModel,
    r: Rules,
    facts: Seq<PaintFacts>,
    frame: u64,
    inspected: Option<u32>,
    s: int,
    k: int,
    j: int,
)
    requires
        m.tree.is_tree(),
        m.tree.alive(s),
        0 <= k < m.tree.links[s].children.len() <= usize::MAX,
        0 <= j < m.plan(
            r,
            facts,
            frame,
            inspected,
            m.tree.links[s].children[k] as int,
        ).len(),
        facts[s].shown,
        facts[s].visible,
        m.nodes[s].kind != 1,
        !(facts[s].clips && facts[s].clip_empty),
        !facts[s].perspective,
    ensures
        m.plan(r, facts, frame, inspected, s).contains(
            m.plan(r, facts, frame, inspected, m.tree.links[s].children[k] as int)[j],
        ),
{
    let n = m.tree.links[s].children.len() as int;
    let i = lemma_child_is_painted(m, r, s, k);
    lemma_plan_below_holds(m, r, facts, frame, inspected, s, n, i, j);
    let want = m.plan(r, facts, frame, inspected, m.tree.links[s].children[k] as int)[j];
    let inner = m.plan_below(r, facts, frame, inspected, s, n);
    let x = choose|x: int| 0 <= x < inner.len() && inner[x] == want;
    let own = m.inspect_step(s, inspected) + m.own_steps(s, facts[s], frame);
    let all = m.plan(r, facts, frame, inspected, s);
    if facts[s].clips {
        assert(all[own.len() + 1 + x] == want);
    } else {
        assert(all[own.len() + x] == want);
    }
}

/// What is painted for a node itself: the parts of its box in their order, and
/// over them its text, its picture if it has one, or its surface if it has one.
/// What is not shown is not painted, nor is what is fully transparent.
#[verifier::rlimit(50)]
pub proof fn law_nodes_are_painted(
    m: SceneModel,
    r: Rules,
    facts: Seq<PaintFacts>,
    frame: u64,
    inspected: Option<u32>,
    s: int,
)
    requires
        m.tree.is_tree(),
        m.tree.alive(s),
        inspected != Some(s as u32),
    ensures
        ({
            let f = facts[s];
            let all = m.plan(r, facts, frame, inspected, s);
            let parts = f.style.steps();
            let n = m.nodes[s];
            let k = parts.len() as int;
            &&& !f.shown || !f.visible ==> all.len() == 0
            &&& f.shown && f.visible ==> {
                &&& all.len() >= k
                &&& forall|i: int|
                    #![trigger parts[i]]
                    0 <= i < k ==> all[i] == PaintStep::Part(s as u32, parts[i])
                &&& n.kind == 1 ==> all.len() == k + 1 && all[k] == PaintStep::Text(s as u32)
                &&& n.kind == 2 && n.tex >= 0 ==> all.len() > k && (
                all[k] matches PaintStep::Image(o, cell) && o == s as u32 && (cell is Some
                    <==> n.sprite.frames > 0))
                &&& n.kind == 3 && n.surface >= 0 ==> all.len() > k && all[k] == PaintStep::Surface(
                    s as u32,
                )
            }
        }),
{
    let f = facts[s];
    let own = m.inspect_step(s, inspected) + m.own_steps(s, f, frame);
    if f.shown && f.visible {
        let all = m.plan(r, facts, frame, inspected, s);
        assert(own =~= m.own_steps(s, f, frame));
        assert(all.len() >= own.len());
        assert forall|i: int| 0 <= i < own.len() implies #[trigger] all[i] == own[i] by {}
        let k = f.style.steps().len() as int;
        assert forall|i: int| #![trigger f.style.steps()[i]] 0 <= i < k implies all[i]
            == PaintStep::Part(s as u32, f.style.steps()[i]) by {
            assert(all[i] == own[i]);
        }
        if own.len() > k {
            assert(all[k] == own[k]);
        }
    }
}

// ---- hits -----------------------------------------------------------------------------------------

proof fn lemma_claimants_below_hold(
    m: SceneModel,
    r: Rules,
    facts: Seq<HitFacts>,
    ink: bool,
    s: int,
    k: int,
    i: int,
    c: int,
)
    requires
        m.tree.is_tree(),
        m.tree.alive(s),
        0 <= i < k <= m.tree.links[s].children.len() <= usize::MAX,
        m.claimants(r, facts, ink, m.painted_children(r, s)[i] as int).contains(c),
    ensures
        m.claimants_below(r, facts, ink, s, k).contains(c),
    decreases k,
{
    let all = m.claimants_below(r, facts, ink, s, k);
    let before = m.claimants_below(r, facts, ink, s, k - 1);
    let own = m.claimants(r, facts, ink, m.painted_children(r, s)[k - 1] as int);
    assert(all == before + own);
    if i < k - 1 {
        lemma_claimants_below_hold(m, r, facts, ink, s, k - 1, i, c);
        let x = choose|x: int| 0 <= x < before.len() && before[x] == c;
        assert(all[x] == c);
    } else {
        let x = choose|x: int| 0 <= x < own.len() && own[x] == c;
        assert(all[before.len() + x] == c);
    }
}

/// A node that is seen, has the point in its box and does not let hits through
/// claims it: by its box, and by ink where it paints. What a child claims its
/// parent passes on, if that is seen, is no text, does not clip it away and
/// does not show it in perspective.
pub proof fn law_claims_come_up(
    m: SceneModel,
    r: Rules,
    facts: Seq<HitFacts>,
    ink: bool,
    s: int,
    k: int,
    c: int,
)
    requires
        m.tree.is_tree(),
        m.tree.alive(s),
        facts[s].seen,
    ensures
        facts[s].inside && !facts[s].passes && (!ink || facts[s].bg >= 0x100_0000
            || facts[s].in_band || m.nodes[s].kind == 1) ==> m.claimants(r, facts, ink, s).contains(
            s,
        ),
        0 <= k < m.tree.links[s].children.len() <= usize::MAX && m.nodes[s].kind != 1
            && !facts[s].cut && !facts[s].perspective && m.claimants(
            r,
            facts,
            ink,
            m.tree.links[s].children[k] as int,
        ).contains(c) ==> m.claimants(r, facts, ink, s).contains(c),
{
    let all = m.claimants(r, facts, ink, s);
    let own = if m.claims_point(r, s, facts[s], ink) {
        seq![s]
    } else {
        Seq::<int>::empty()
    };
    if own.len() > 0 {
        assert(all[0] == s);
    }
    if 0 <= k < m.tree.links[s].children.len() <= usize::MAX && m.opens(s, facts[s])
        && m.claimants(r, facts, ink, m.tree.links[s].children[k] as int).contains(c) {
        let n = m.tree.links[s].children.len() as int;
        let i = lemma_child_is_painted(m, r, s, k);
        lemma_claimants_below_hold(m, r, facts, ink, s, n, i, c);
        let inner = m.claimants_below(r, facts, ink, s, n);
        let x = choose|x: int| 0 <= x < inner.len() && inner[x] == c;
        assert(all[own.len() + x] == c);
    }
}

// ---- text -----------------------------------------------------------------------------------------

/// The run of a node is its own text and then that of its text children one
/// after the other; other children add nothing.
pub proof fn law_runs_of_text(m: SceneModel, s: int, k: int)
    requires
        m.tree.is_tree(),
        m.tree.alive(s),
        0 <= k < m.tree.links[s].children.len(),
    ensures
        ({
            let c = m.tree.links[s].children[k] as int;
            let n = m.tree.links[s].children.len() as int;
            &&& m.run_of(s) == m.nodes[s].text + m.runs_of(s, n)
            &&& m.runs_of(s, 0) == Seq::<char>::empty()
            &&& m.runs_of(s, k + 1) == m.runs_of(s, k) + (if m.nodes[c].kind == 1 {
                m.run_of(c)
            } else {
                Seq::<char>::empty()
            })
        }),
{
}

/// Setting the text of a text node sets it and changes no other node; other
/// nodes have no text to set.
pub proof fn law_text_is_set(m: SceneModel, r: Rules, s: int, text: Seq<char>, o: int)
    requires
        0 <= s < m.nodes.len(),
        0 <= o < m.nodes.len(),
    ensures
        ({
            let n = m.with_text(r, s, text);
            &&& m.nodes[s].kind == 1 ==> n.nodes[s].text == text
            &&& m.nodes[s].kind != 1 ==> n == m
            &&& n.nodes[s] == (NodeModel { text: n.nodes[s].text, ..m.nodes[s] })
            &&& o != s ==> n.nodes[o] == m.nodes[o]
            &&& n.tree == m.tree && n.tracks == m.tracks && n.focused == m.focused
        }),
{
}

// ---- surfaces -------------------------------------------------------------------------------------

/// Going from operation to operation one gets from `i` to `at`.
pub open spec fn leads_to(words: Seq<u32>, i: int, at: int) -> bool
    decreases words.len() - i,
{
    i == at || (0 <= i < at && i < words.len() && (op_len(words, i) matches Some(len) && 0 < len
        && i + len <= words.len() && leads_to(words, i + len, at)))
}

proof fn lemma_surface_found(words: Seq<u32>, i: int, at: int)
    requires
        0 <= i <= at,
        at + 9 <= words.len(),
        leads_to(words, i, at),
        words[at] == 10,
    ensures
        surfaces_from(words, i).contains(surface_at(words, at)),
    decreases words.len() - i,
{
    let all = surfaces_from(words, i);
    if i == at {
        assert(all[0] == surface_at(words, at));
    } else {
        let len = op_len(words, i)->0;
        reveal_with_fuel(leads_to, 2);
        lemma_surface_found(words, i + len, at);
        let rest = surfaces_from(words, i + len);
        let x = choose|x: int| 0 <= x < rest.len() && rest[x] == surface_at(words, at);
        if words[i] == 10 {
            assert(all[x + 1] == rest[x]);
        } else {
            assert(all[x] == rest[x]);
        }
    }
}

/// A surface that was put on the list is among those of the list, with its
/// handle, its full bounds, the part that is seen, whether it has the focus, and
/// where it stands.
pub proof fn law_surfaces_are_found(
    before: Seq<u32>,
    surface: u32,
    full: (u32, u32, u32, u32),
    x: int,
    y: int,
    w: int,
    h: int,
    focused: bool,
    after: Seq<u32>,
)
    requires
        -0x8000 <= x < 0x8000,
        -0x8000 <= y < 0x8000,
        0 <= w < 0x1_0000,
        0 <= h < 0x1_0000,
        before.len() <= usize::MAX,
        leads_to(
            before + surface_record(surface, full, x, y, w, h, focused) + after,
            0,
            before.len() as int,
        ),
    ensures
        surfaces_from(
            before + surface_record(surface, full, x, y, w, h, focused) + after,
            0,
        ).contains(
            CompositorSurfaceFrame {
                handle: surface,
                full,
                clip: (x as i32, y as i32, w as i32, h as i32),
                focused,
                order: before.len() as usize,
            },
        ),
{
    let op = surface_record(surface, full, x, y, w, h, focused);
    let words = before + op + after;
    let at = before.len() as int;
    law_packed_words_unpack(x, y);
    law_packed_words_unpack(w, h);
    assert(words[at] == op[0] && words[at + 1] == op[1] && words[at + 2] == op[2]);
    assert(words[at + 3] == op[3] && words[at + 4] == op[4] && words[at + 5] == op[5]);
    assert(words[at + 6] == op[6] && words[at + 7] == op[7] && words[at + 8] == op[8]);
    lemma_surface_found(words, 0, at);
}

/// The record of a text holds its font slot and alignment in one word, then its
/// place, the width of its box, its line height, its colour, how many bytes it
/// has, and those.
pub proof fn law_text_records(head: TextHead, bytes: Seq<u8>)
    requires
        bytes.len() <= u32::MAX,
    ensures
        ({
            let op = text_record(head, bytes);
            &&& op.len() == 8 + (bytes.len() + 3) / 4
            &&& op[0] == 9
            &&& op[1] as int % 256 == head.slot && op[1] as int / 256 == head.align
            &&& op[2] == head.x && op[3] == head.y && op[4] == head.box_w
            &&& op[5] == head.line_height && op[6] == head.color
            &&& op[7] == bytes.len()
            &&& op_len(op, 0) == Some(op.len() as int)
        }),
{
}

/// The surfaces of a scene are those of its live surface nodes that have one.
pub proof fn law_bound_surfaces_are_listed(m: SceneModel, n: int, s: int)
    requires
        0 <= s < n,
        m.tree.links[s].alive,
        m.nodes[s].kind == 3,
        m.nodes[s].surface >= 0,
    ensures
        m.bindings(n).contains((m.nodes[s].surface as u32, m.nodes[s].surface_focused)),
    decreases n,
{
    let all = m.bindings(n);
    let want = (m.nodes[s].surface as u32, m.nodes[s].surface_focused);
    if s < n - 1 {
        law_bound_surfaces_are_listed(m, n - 1, s);
        let before = m.bindings(n - 1);
        let x = choose|x: int| 0 <= x < before.len() && before[x] == want;
        assert(all[x] == want);
    } else {
        assert(all[all.len() - 1] == want);
    }
}

/// A surface is bound to a surface node as it was given, and one below 0 is none.
#[verifier::rlimit(50)]
pub proof fn law_surface_is_bound(m: SceneModel, id: int, surface: i32, focused: bool, s: int)
    requires
        m.tree.resolves(id) == Some(s),
        0 <= s < m.nodes.len(),
        m.nodes[s].kind == 3,
    ensures
        ({
            let n = m.with_surface(id, surface, focused).nodes[s];
            &&& n.surface_focused == focused
            &&& surface >= 0 ==> n.surface == surface
            &&& surface < 0 ==> n.surface < 0
            &&& n == (NodeModel {
                surface: n.surface,
                surface_focused: focused,
                ..m.nodes[s]
            })
        }),
{
}

// ---- sizes ----------------------------------------------------------------------------------------

/// Giving the main surface a size gives its root that width and height, and the
/// viewport.
pub proof fn law_viewport_sizes_the_root(m: UiModel, size: (u32, u32))
    requires
        crate::frames::in_order(m.scene),
        m.scene.nodes.len() >= 2,
        m.rules.props.width != m.rules.props.height,
        m.rules.props.kinds@[m.rules.props.width as int] != crate::style::KIND_NONE,
        m.rules.props.kinds@[m.rules.props.height as int] != crate::style::KIND_NONE,
        m.scene.layouts.main.viewport != size,
    ensures
        ({
            let n = m.with_viewport(size);
            let root = n.scene.nodes[1];
            &&& n.scene.layouts.main.viewport == size
            &&& node_value(root, m.rules.styles, true, m.rules.props.width) == size.0
            &&& node_value(root, m.rules.styles, true, m.rules.props.height) == size.1
        }),
{
    assert(m.scene.nodes[1].anims.len() == 256 && m.scene.nodes[1].overrides.len() == 256);
}

/// The auxiliary surface has a root of its own of the size asked for; its size
/// is that of its root.
pub proof fn law_auxiliary_surface_has_its_size(m: SceneModel, props: PropTable, size: (u32, u32))
    requires
        m.tree.slots_wf(),
        crate::frames::in_order(m),
        props.width != props.height,
        props.flex_dir != props.width,
        props.flex_dir != props.height,
        m.layouts.aux matches Some((root, _l)) ==> m.tree.resolves(root as int) is Some,
        ({
            let (_n, id) = m.with_auxiliary(props, size);
            id != 0
        }),
    ensures
        ({
            let (n, id) = m.with_auxiliary(props, size);
            let s = n.tree.resolves(id)->0;
            &&& n.tree.resolves(id) is Some
            &&& n.layouts.aux matches Some((root, l)) && root == id as i32 && l.viewport == size
                && l.dirty
            &&& n.nodes[s].overrides[props.width as int] == Some(size.0)
            &&& n.nodes[s].overrides[props.height as int] == Some(size.1)
            &&& m.layouts.aux is None ==> n.nodes[s].overrides[props.flex_dir as int] == Some(
                props.flex_col,
            )
        }),
{
    match m.layouts.aux {
        Some((root, _l)) => {
            let s = m.tree.resolves(root as int)->0;
            assert(m.nodes[s].overrides.len() == 256);
        },
        None => if Scene::created(m, 0) is Some {
            crate::tree::law_new_ids_are_fresh(m.tree, 0);
        },
    }
}

// ---- layout -----------------------------------------------------------------------------------------

/// What moves boxes is told to the layout: a style, a value of a property that
/// moves boxes, and every change of the tree.
pub proof fn law_layout_is_told(
    m: SceneModel,
    r: Rules,
    s: int,
    style: i32,
    prop: u8,
    bits: u32,
    parent: int,
    child: int,
    anchor: int,
)
    requires
        0 <= s < m.nodes.len() <= 0x1_0000,
    ensures
        m.with_style(r, s, style).layouts.main.restyle.contains(s as u32),
        r.props.dirtying@[prop as int] ==> m.with_prop(
            r,
            s,
            prop,
            bits,
        ).layouts.main.restyle.contains(s as u32),
        !r.props.dirtying@[prop as int] ==> m.with_prop(r, s, prop, bits).layouts == m.layouts,
        Scene::moved(m, parent, child, anchor) != m ==> Scene::moved(
            m,
            parent,
            child,
            anchor,
        ).layouts.main.dirty,
        m.tree.removed(parent, child) is Some ==> Scene::removed(m, parent, child).layouts.main.dirty,
{
}

// ---- clipping -----------------------------------------------------------------------------------------

/// What is left of a polygon that a line cuts: a corner just if it is on the near
/// side, and a cut of an edge just if its ends are on different sides; corners
/// and cuts follow each other round the polygon, a cut behind its corner.
pub proof fn law_clipped_corners(inside: Seq<bool>, n: int, i: int)
    requires
        0 <= i < n <= inside.len() <= usize::MAX,
    ensures
        ({
            let all = clip_steps(inside, n);
            let next = if i + 1 < inside.len() {
                i + 1
            } else {
                0
            };
            &&& inside[i] ==> all.contains(ClipStep::Keep(i as usize))
            &&& inside[i] != inside[next] ==> all.contains(
                ClipStep::Cut(i as usize, next as usize),
            )
            &&& forall|k: int|
                #![trigger all[k]]
                0 <= k < all.len() ==> match all[k] {
                    ClipStep::Keep(a) => a < n && inside[a as int],
                    ClipStep::Cut(a, b) => a < n && b < inside.len() && inside[a as int]
                        != inside[b as int],
                }
        }),
    decreases n,
{
    let all = clip_steps(inside, n);
    let before = clip_steps(inside, n - 1);
    let own = steps_at(inside, n - 1);
    assert(all == before + own);
    let next = next_corner(i, inside.len() as int);
    if n > 1 {
        let j = if i < n - 1 {
            i
        } else {
            0
        };
        law_clipped_corners(inside, n - 1, j);
    }
    if i < n - 1 {
        if inside[i] {
            let x = choose|x: int|
                0 <= x < before.len() && before[x] == ClipStep::Keep(i as usize);
            assert(all[x] == before[x]);
        }
        if inside[i] != inside[next] {
            let x = choose|x: int|
                0 <= x < before.len() && before[x] == ClipStep::Cut(i as usize, next as usize);
            assert(all[x] == before[x]);
        }
    } else {
        if inside[i] {
            assert(all[before.len() as int] == ClipStep::Keep(i as usize));
        }
        if inside[i] != inside[next] {
            assert(own.last() == ClipStep::Cut(i as usize, next as usize));
            assert(all[all.len() - 1] == own.last());
        }
    }
    assert forall|k: int| #![trigger all[k]] 0 <= k < all.len() implies match all[k] {
        ClipStep::Keep(a) => a < n && inside[a as int],
        ClipStep::Cut(a, b) => a < n && b < inside.len() && inside[a as int] != inside[b as int],
    } by {
        if k < before.len() {
            assert(all[k] == before[k]);
        } else {
            assert(all[k] == own[k - before.len()]);
        }
    }
}

/// A node that is inspected says where it is before it is painted, seen or not,
/// as long as it is shown.
pub proof fn law_inspected_nodes_are_found(
    m: SceneModel,
    r: Rules,
    facts: Seq<PaintFacts>,
    frame: u64,
    s: int,
)
    requires
        m.tree.is_tree(),
        m.tree.alive(s),
        facts[s].shown,
    ensures
        ({
            let all = m.plan(r, facts, frame, Some(s as u32), s);
            all.len() > 0 && all[0] == PaintStep::Inspect(s as u32)
        }),
{
    let own = m.inspect_step(s, Some(s as u32)) + m.own_steps(s, facts[s], frame);
    assert(own[0] == PaintStep::Inspect(s as u32));
    let all = m.plan(r, facts, frame, Some(s as u32), s);
    if facts[s].visible {
        assert(all[0] == own[0]);
    }
}

/// What is below a node that clips is painted between the opening and the closing
/// of its clip, and what is below one with a perspective in perspective.
pub proof fn law_clips_hold_what_is_below(
    m: SceneModel,
    r: Rules,
    facts: Seq<PaintFacts>,
    frame: u64,
    inspected: Option<u32>,
    s: int,
)
    requires
        m.tree.is_tree(),
        m.tree.alive(s),
        facts[s].shown,
        facts[s].visible,
        m.nodes[s].kind != 1,
        inspected != Some(s as u32),
    ensures
        ({
            let f = facts[s];
            let all = m.plan(r, facts, frame, inspected, s);
            let own = m.own_steps(s, f, frame).len() as int;
            &&& f.clips && !f.clip_empty ==> all.len() >= own + 2 && all[own] == PaintStep::Scissor(
                s as u32,
            ) && all.last() == PaintStep::Unscissor
            &&& f.clips && f.clip_empty ==> all.len() == own
            &&& f.clips && !f.clip_empty && f.perspective ==> all.len() == own + 3 && all[own + 1]
                == PaintStep::Perspective(s as u32)
            &&& !f.clips && f.perspective ==> all.len() == own + 1 && all[own]
                == PaintStep::Perspective(s as u32)
        }),
{
    let f = facts[s];
    let own = m.inspect_step(s, inspected) + m.own_steps(s, f, frame);
    assert(own =~= m.own_steps(s, f, frame));
}

proof fn lemma_claimants_below_end(
    m: SceneModel,
    r: Rules,
    facts: Seq<HitFacts>,
    ink: bool,
    s: int,
    k: int,
    i: int,
)
    requires
        m.tree.is_tree(),
        m.tree.alive(s),
        0 <= i < k <= m.tree.links[s].children.len() <= usize::MAX,
        m.claimants(r, facts, ink, m.painted_children(r, s)[i] as int).len() > 0,
        forall|j: int|
            #![trigger m.painted_children(r, s)[j]]
            i < j < k ==> m.claimants(r, facts, ink, m.painted_children(r, s)[j] as int).len() == 0,
    ensures
        m.claimants_below(r, facts, ink, s, k).len() > 0,
        m.claimants_below(r, facts, ink, s, k).last() == m.claimants(
            r,
            facts,
            ink,
            m.painted_children(r, s)[i] as int,
        ).last(),
    decreases k,
{
    let all = m.claimants_below(r, facts, ink, s, k);
    let before = m.claimants_below(r, facts, ink, s, k - 1);
    let own = m.claimants(r, facts, ink, m.painted_children(r, s)[k - 1] as int);
    assert(all == before + own);
    if i < k - 1 {
        lemma_claimants_below_end(m, r, facts, ink, s, k - 1, i);
        assert(m.painted_children(r, s)[k - 1] == m.painted_children(r, s)[k - 1]);
        assert(own.len() == 0);
        assert(all =~= before);
    }
}

/// What is painted last is hit: of the children of a node that it lets be looked
/// at, the last painted one with something at the point decides what is hit, and
/// the node itself is hit only where none of them has anything there.
pub proof fn law_front_is_hit(
    m: SceneModel,
    r: Rules,
    facts: Seq<HitFacts>,
    ink: bool,
    id: int,
    c: int,
    i: int,
)
    requires
        m.tree.is_tree(),
        m.tree.resolves(id) is Some,
        facts[m.tree.resolves(id)->0].seen,
        m.nodes[m.tree.resolves(id)->0].kind != 1,
        !facts[m.tree.resolves(id)->0].cut,
        !facts[m.tree.resolves(id)->0].perspective,
        m.tree.links[m.tree.resolves(id)->0].children.len() <= usize::MAX,
        0 <= i < m.tree.links[m.tree.resolves(id)->0].children.len(),
        m.tree.resolves(c) == Some(m.painted_children(r, m.tree.resolves(id)->0)[i] as int),
        m.claimants(
            r,
            facts,
            ink,
            m.painted_children(r, m.tree.resolves(id)->0)[i] as int,
        ).len() > 0,
        forall|j: int|
            #![trigger m.painted_children(r, m.tree.resolves(id)->0)[j]]
            i < j < m.tree.links[m.tree.resolves(id)->0].children.len() ==> m.claimants(
                r,
                facts,
                ink,
                m.painted_children(r, m.tree.resolves(id)->0)[j] as int,
            ).len() == 0,
    ensures
        m.hit(r, facts, ink, id) == m.hit(r, facts, ink, c),
{
    let s = m.tree.resolves(id)->0;
    let n = m.tree.links[s].children.len() as int;
    lemma_claimants_below_end(m, r, facts, ink, s, n, i);
    let all = m.claimants(r, facts, ink, s);
    let inner = m.claimants_below(r, facts, ink, s, n);
    assert(all.last() == inner.last());
}

} // verus!
