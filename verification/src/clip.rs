//! Clipping polygons at a line.
//!
//! Which corners of a polygon lie on the near side of the line is given; where
//! its edges cross the line is for the caller to compute.
use vstd::prelude::*;

verus! {

/// A corner of the clipped polygon.
#[derive(Clone, Copy, PartialEq, Eq, Debug)]
pub enum ClipStep {
    /// A corner of the polygon.
    Keep(usize),
    /// Where the edge between two corners crosses the line.
    Cut(usize, usize),
}

/// The corner after corner `i` of a polygon of `n`.
pub open spec fn next_corner(i: int, n: int) -> int {
    if i + 1 < n {
        i + 1
    } else {
        0
    }
}

/// The edge from corner `i` on crosses the line.
pub open spec fn crosses(inside: Seq<bool>, i: int) -> bool {
    inside[i] != inside[next_corner(i, inside.len() as int)]
}

/// What corner `i` and the edge from it on leave behind.
pub open spec fn steps_at(inside: Seq<bool>, i: int) -> Seq<ClipStep> {
    (if inside[i] {
        seq![ClipStep::Keep(i as usize)]
    } else {
        Seq::empty()
    }) + (if crosses(inside, i) {
        seq![ClipStep::Cut(i as usize, next_corner(i, inside.len() as int) as usize)]
    } else {
        Seq::empty()
    })
}

/// What the first `n` corners leave behind.
pub open spec fn clip_steps(inside: Seq<bool>, n: int) -> Seq<ClipStep>
    decreases n,
{
    if n <= 0 {
        Seq::empty()
    } else {
        clip_steps(inside, n - 1) + steps_at(inside, n - 1)
    }
}

/// The corners of a polygon clipped at a line, in their order.
pub fn clip_polygon(inside: &[bool]) -> (r: Vec<ClipStep>)
    ensures
        r@ == clip_steps(inside@, inside@.len() as int),
{
    let n: usize = inside.len();
    let mut r: Vec<ClipStep> = Vec::new();
    let mut i: usize = 0;
    while i < n
        invariant
            n == inside@.len(),
            i <= n,
            r@ == clip_steps(inside@, i as int),
        decreases n - i,
    {
        let ghost before = r@;
        let next: usize = if i + 1 < n {
            i + 1
        } else {
            0
        };
        if inside[i] {
            r.push(ClipStep::Keep(i));
        }
        if inside[i] != inside[next] {
            r.push(ClipStep::Cut(i, next));
        }
        proof {
            assert(r@ =~= before + steps_at(inside@, i as int));
        }
        i = i + 1;
    }
    r
}

/// Edges among the first `n` that cross the line.
pub open spec fn crossings(inside: Seq<bool>, n: int) -> int
    decreases n,
{
    if n <= 0 {
        0
    } else {
        crossings(inside, n - 1) + if crosses(inside, n - 1) {
            1int
        } else {
            0
        }
    }
}

/// Corners among the first `n` on the near side.
pub open spec fn kept(inside: Seq<bool>, n: int) -> int
    decreases n,
{
    if n <= 0 {
        0
    } else {
        kept(inside, n - 1) + if inside[n - 1] {
            1int
        } else {
            0
        }
    }
}

/// A polygon keeps its corners on the near side and gets one for each edge that
/// crosses the line; and the line is crossed out as often as in.
pub proof fn law_clipped_polygon(inside: Seq<bool>)
    ensures
        clip_steps(inside, inside.len() as int).len() == kept(inside, inside.len() as int)
            + crossings(inside, inside.len() as int),
        crossings(inside, inside.len() as int) % 2 == 0,
{
    let n = inside.len() as int;
    lemma_counted(inside, n);
    if n > 0 {
        lemma_parity(inside, n - 1);
    }
}

proof fn lemma_counted(inside: Seq<bool>, n: int)
    requires
        0 <= n <= inside.len(),
    ensures
        clip_steps(inside, n).len() == kept(inside, n) + crossings(inside, n),
    decreases n,
{
    if n > 0 {
        lemma_counted(inside, n - 1);
    }
}

/// Along the edges up to corner `n` the side changes as often as they cross.
proof fn lemma_parity(inside: Seq<bool>, n: int)
    requires
        0 <= n < inside.len(),
    ensures
        crossings(inside, n) % 2 == (if inside[0] != inside[n] {
            1int
        } else {
            0
        }),
    decreases n,
{
    if n > 0 {
        lemma_parity(inside, n - 1);
    }
}

/// A polygon on the near side stays as it is, and one on the far side goes.
pub proof fn law_uncut_polygon(inside: Seq<bool>, near: bool)
    requires
        forall|i: int| 0 <= i < inside.len() ==> inside[i] == near,
    ensures
        near ==> clip_steps(inside, inside.len() as int) == Seq::new(
            inside.len(),
            |i: int| ClipStep::Keep(i as usize),
        ),
        !near ==> clip_steps(inside, inside.len() as int).len() == 0,
{
    lemma_uncut(inside, near, inside.len() as int);
}

proof fn lemma_uncut(inside: Seq<bool>, near: bool, n: int)
    requires
        0 <= n <= inside.len(),
        forall|i: int| 0 <= i < inside.len() ==> inside[i] == near,
    ensures
        near ==> clip_steps(inside, n) =~= Seq::new(n as nat, |i: int| ClipStep::Keep(i as usize)),
        !near ==> clip_steps(inside, n).len() == 0,
    decreases n,
{
    if n > 0 {
        lemma_uncut(inside, near, n - 1);
    }
}

} // verus!
