//! What a pass makes of a draw list that does not end with a whole operation.
use crate::constants::{OP_GLYPH_RUN, OP_RECT, OP_TEX_QUAD, OP_TEX_TRI, OP_TRI};
use crate::font::Atlas;
use crate::ge::{
    decode_from, decode_op, glyph_at, glyph_rects, glyph_run_step, glyph_sprites,
    is_record, lemma_records_inside, pass, quad_verts, records, rect_verts, sprite_cols,
    tex_tri_verts, tri_verts, Area,
};
use crate::texture::SlotModel;
use vstd::prelude::*;

verus! {

/// Where the decoder goes on after the operation at `at`; `None` at the end of
/// the list and where an operation is unknown or cut short.
pub open spec fn next_op(words: Seq<u32>, at: int) -> Option<int> {
    match decode_op(words, at, Seq::empty(), Seq::empty(), Seq::empty(), false) {
        Some(d) => Some(d.next),
        None => None,
    }
}

/// From `at` on the list holds whole operations and nothing else.
pub open spec fn whole_from(words: Seq<u32>, at: int) -> bool
    decreases words.len() - at,
{
    at == words.len() || (next_op(words, at) matches Some(next) && at < next <= words.len()
        && whole_from(words, next))
}

/// Operations of one sort that are drawn together, and the words of one.
pub open spec fn batched(op: u32, stride: int) -> bool {
    ||| op == OP_RECT && stride == 4
    ||| op == OP_TRI && stride == 7
    ||| op == OP_TEX_QUAD && stride == 9
    ||| op == OP_TEX_TRI && stride == 12
}

proof fn lemma_same_records(
    words: Seq<u32>,
    tail: Seq<u32>,
    at: int,
    op: u32,
    stride: int,
    texture: Option<u32>,
)
    requires
        batched(op, stride),
        texture is Some ==> op == OP_TEX_QUAD || op == OP_TEX_TRI,
        0 <= at <= words.len(),
        whole_from(words, at + stride * records(words, at, op, stride, texture)),
        next_op(words + tail, words.len() as int) is None,
    ensures
        records(words + tail, at, op, stride, texture) == records(words, at, op, stride, texture),
    decreases words.len() - at,
{
    let all = words + tail;
    let n = records(words, at, op, stride, texture);
    if at + stride <= words.len() && is_record(words, at, op, texture) {
        assert(all[at] == words[at] && all[at + 1] == words[at + 1]);
        let k = records(words, at + stride, op, stride, texture);
        assert(stride * n == stride + stride * k) by (nonlinear_arith)
            requires
                n == 1 + k,
        ;
        lemma_same_records(words, tail, at + stride, op, stride, texture);
    } else {
        assert(stride * n == 0) by (nonlinear_arith)
            requires
                n == 0,
        ;
        reveal(decode_op);
        assert(whole_from(words, at));
        if at == words.len() {
            assert(next_op(all, at) is None);
        } else {
            assert(all[at] == words[at]);
            assert(next_op(words, at) is Some);
            if words[at] == op {
                assert(at + stride <= words.len());
                assert(all[at + 1] == words[at + 1]);
            }
        }
    }
}

proof fn lemma_same_glyphs(
    words: Seq<u32>,
    tail: Seq<u32>,
    body: int,
    g: int,
    count: int,
    color: u32,
    atlas: Atlas,
    cols: int,
)
    requires
        0 <= body,
        0 <= g,
        body + 2 * count <= words.len(),
    ensures
        glyph_sprites(words + tail, body, g, count, color, atlas, cols) == glyph_sprites(
            words,
            body,
            g,
            count,
            color,
            atlas,
            cols,
        ),
        glyph_rects(words + tail, body, g, count, color, atlas) == glyph_rects(
            words,
            body,
            g,
            count,
            color,
            atlas,
        ),
    decreases count - g,
{
    if g < count {
        let all = words + tail;
        assert(all[body + 2 * g] == words[body + 2 * g]);
        assert(all[body + 2 * g + 1] == words[body + 2 * g + 1]);
        assert(glyph_at(all, body, g) == glyph_at(words, body, g));
        lemma_same_glyphs(words, tail, body, g + 1, count, color, atlas, cols);
    }
}

proof fn lemma_same_corners(words: Seq<u32>, tail: Seq<u32>, at: int, count: nat)
    requires
        0 <= at,
        at + 4 * count <= words.len(),
    ensures
        rect_verts(words + tail, at, count) == rect_verts(words, at, count),
        at + 7 * count <= words.len() ==> tri_verts(words + tail, at, count) == tri_verts(
            words,
            at,
            count,
        ),
{
    let all = words + tail;
    let (a, b) = (rect_verts(all, at, count), rect_verts(words, at, count));
    assert forall|j: int| 0 <= j < a.len() implies a[j] == b[j] by {
        let o = at + 4 * (j / 2);
        assert(all[o + 1] == words[o + 1] && all[o + 2] == words[o + 2] && all[o + 3] == words[o
            + 3]);
    }
    assert(a =~= b);
    if at + 7 * count <= words.len() {
        let (a, b) = (tri_verts(all, at, count), tri_verts(words, at, count));
        assert forall|j: int| 0 <= j < a.len() implies a[j] == b[j] by {
            let o = at + 7 * (j / 3);
            assert(all[o + 1 + j % 3] == words[o + 1 + j % 3]);
            assert(all[o + 4 + j % 3] == words[o + 4 + j % 3]);
        }
        assert(a =~= b);
    }
}

proof fn lemma_same_textured(words: Seq<u32>, tail: Seq<u32>, at: int, count: nat)
    requires
        0 <= at,
        at + 9 * count <= words.len(),
    ensures
        quad_verts(words + tail, at, count) == quad_verts(words, at, count),
        at + 12 * count <= words.len() ==> tex_tri_verts(words + tail, at, count) == tex_tri_verts(
            words,
            at,
            count,
        ),
{
    let all = words + tail;
    assert forall|k: int| 0 <= k < words.len() implies #[trigger] all[k] == words[k] by {}
    let (a, b) = (quad_verts(all, at, count), quad_verts(words, at, count));
    assert forall|j: int| 0 <= j < a.len() implies a[j] == b[j] by {
        let o = at + 9 * (j / 2);
        assert(0 <= o && o + 9 <= words.len());
    }
    assert(a =~= b);
    if at + 12 * count <= words.len() {
        let (a, b) = (tex_tri_verts(all, at, count), tex_tri_verts(words, at, count));
        assert forall|j: int| 0 <= j < a.len() implies a[j] == b[j] by {
            let o = at + 12 * (j / 3);
            assert(0 <= o && o + 12 <= words.len());
        }
        assert(a =~= b);
    }
}

/// An operation that is followed by whole ones says the same whatever follows
/// those, if it is no operation: those that are drawn together.
proof fn lemma_same_batch(
    words: Seq<u32>,
    tail: Seq<u32>,
    at: int,
    areas: Seq<Area>,
    slots: Seq<SlotModel>,
    atlases: Seq<Option<Atlas>>,
    fallback: bool,
)
    requires
        0 <= at < words.len(),
        whole_from(words, at),
        next_op(words + tail, words.len() as int) is None,
        words[at] == OP_RECT || words[at] == OP_TRI || words[at] == OP_TEX_QUAD || words[at]
            == OP_TEX_TRI,
    ensures
        decode_op(words + tail, at, areas, slots, atlases, fallback) == decode_op(
            words,
            at,
            areas,
            slots,
            atlases,
            fallback,
        ),
{
    reveal(decode_op);
    let all = words + tail;
    let op = words[at];
    assert(next_op(words, at) is Some);
    assert(all[at] == op && all[at + 1] == words[at + 1]);
    if op == OP_RECT {
        let count = records(words, at, op, 4, None);
        lemma_records_inside(words, at, op, 4, None);
        lemma_same_records(words, tail, at, op, 4, None);
        lemma_same_corners(words, tail, at, count);
    } else if op == OP_TRI {
        let count = records(words, at, op, 7, None);
        lemma_records_inside(words, at, op, 7, None);
        lemma_same_records(words, tail, at, op, 7, None);
        lemma_same_corners(words, tail, at, count);
    } else if op == OP_TEX_QUAD {
        let texture = Some(words[at + 1]);
        let count = records(words, at, op, 9, texture);
        lemma_records_inside(words, at, op, 9, texture);
        lemma_same_records(words, tail, at, op, 9, texture);
        lemma_same_textured(words, tail, at, count);
    } else {
        let texture = Some(words[at + 1]);
        let count = records(words, at, op, 12, texture);
        lemma_records_inside(words, at, op, 12, texture);
        lemma_same_records(words, tail, at, op, 12, texture);
        lemma_same_textured(words, tail, at, count);
    }
}

pub proof fn lemma_same_run(
    words: Seq<u32>,
    tail: Seq<u32>,
    at: int,
    atlases: Seq<Option<Atlas>>,
    fallback: bool,
)
    requires
        0 <= at,
        at + 3 + 2 * (words[at + 1] as int / 0x1_0000) <= words.len(),
    ensures
        glyph_run_step(words + tail, at, atlases, fallback) == glyph_run_step(
            words,
            at,
            atlases,
            fallback,
        ),
{
    let all = words + tail;
    let count = words[at + 1] as int / 0x1_0000;
    let slot = words[at + 1] as int % 0x100;
    assert(all[at + 1] == words[at + 1] && all[at + 2] == words[at + 2]);
    if slot < atlases.len() && atlases[slot] is Some {
        let atlas = atlases[slot]->0;
        let cols = match sprite_cols(atlas, fallback) {
            Some(c) => c,
            None => 1,
        };
        lemma_same_glyphs(words, tail, at + 3, 0, count, words[at + 2], atlas, cols);
    }
}

/// All operations.
proof fn lemma_same_op(
    words: Seq<u32>,
    tail: Seq<u32>,
    at: int,
    areas: Seq<Area>,
    slots: Seq<SlotModel>,
    atlases: Seq<Option<Atlas>>,
    fallback: bool,
)
    requires
        0 <= at < words.len(),
        whole_from(words, at),
        next_op(words + tail, words.len() as int) is None,
    ensures
        decode_op(words + tail, at, areas, slots, atlases, fallback) == decode_op(
            words,
            at,
            areas,
            slots,
            atlases,
            fallback,
        ),
{
    reveal(decode_op);
    let all = words + tail;
    let op = words[at];
    if op == OP_RECT || op == OP_TRI || op == OP_TEX_QUAD || op == OP_TEX_TRI {
        lemma_same_batch(words, tail, at, areas, slots, atlases, fallback);
    } else {
        assert(next_op(words, at) is Some);
        assert forall|k: int| 0 <= k < words.len() implies #[trigger] all[k] == words[k] by {}
        if op == OP_GLYPH_RUN {
            lemma_same_run(words, tail, at, atlases, fallback);
        }
    }
}

proof fn lemma_same_commands(
    words: Seq<u32>,
    tail: Seq<u32>,
    at: int,
    areas: Seq<Area>,
    slots: Seq<SlotModel>,
    atlases: Seq<Option<Atlas>>,
    fallback: bool,
)
    requires
        0 <= at <= words.len(),
        whole_from(words, at),
        next_op(words + tail, words.len() as int) is None,
    ensures
        decode_from(words + tail, at, areas, slots, atlases, fallback) == decode_from(
            words,
            at,
            areas,
            slots,
            atlases,
            fallback,
        ),
    decreases words.len() - at,
{
    reveal(decode_op);
    if at < words.len() {
        lemma_same_op(words, tail, at, areas, slots, atlases, fallback);
        let d = decode_op(words, at, areas, slots, atlases, fallback)->0;
        assert(d.next == next_op(words, at)->0);
        lemma_same_commands(words, tail, d.next, d.areas, slots, atlases, fallback);
    } else {
        assert(decode_op(words + tail, at, areas, slots, atlases, fallback) is None);
    }
}

/// A pass ends at the first operation that is unknown or cut short: a list of
/// whole operations with such a one behind it, whatever follows that, gives the
/// commands of the list alone.
pub proof fn law_broken_tail_is_left_out(
    words: Seq<u32>,
    tail: Seq<u32>,
    slots: Seq<SlotModel>,
    atlases: Seq<Option<Atlas>>,
    fallback: bool,
)
    requires
        whole_from(words, 0),
        next_op(words + tail, words.len() as int) is None,
    ensures
        pass(words + tail, slots, atlases, fallback) == pass(words, slots, atlases, fallback),
{
    lemma_same_commands(words, tail, 0, Seq::empty(), slots, atlases, fallback);
}

} // verus!
