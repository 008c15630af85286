//! What the commands of a pass draw, mark by mark, and how that comes of what
//! was put on the draw list.
use crate::constants::{OP_GLYPH_RUN, OP_RECT, OP_TEX_QUAD, OP_TEX_TRI, OP_TRI};
use crate::drawlist::{
    grad_record, law_packed_words_unpack, packed, rect_record, scissor_record, surface_record,
    tex_quad_record, tex_tri_record, tri_record,
};
use crate::font::Atlas;
use crate::ge::{
    decode_from, decode_op, glyph_at, glyph_rects, glyph_run_step, glyph_sprites, grad_verts,
    is_record, lemma_records_inside, pass, quad_verts, records, rect_verts, sprite_cols,
    tex_tri_verts, tri_verts, Area, Decoded, GeStep, VertC, VertTC, VertUv,
};
use crate::texture::{resolves, SlotModel};
use vstd::prelude::*;

verus! {

// ---- marks ------------------------------------------------------------------------------

/// One thing that is drawn. How things are batched does not show.
pub enum Mark {
    Clear(u32),
    Begin,
    Rect(VertC, VertC),
    Strip(VertC, VertC, VertC, VertC),
    Triangle(VertC, VertC, VertC),
    Glyph(u8, VertTC, VertTC),
    GlyphRect(VertC, VertC),
    Image(i32, VertUv, VertUv),
    ImageTriangle(i32, VertUv, VertUv, VertUv),
    Area(i32, i32, i32, i32),
    End,
}

/// What one command draws.
pub open spec fn marks_of(step: GeStep) -> Seq<Mark> {
    match step {
        GeStep::Clear(c) => seq![Mark::Clear(c)],
        GeStep::Begin => seq![Mark::Begin],
        GeStep::Sprites(v) => Seq::new(v.len() / 2, |i: int| Mark::Rect(v[2 * i], v[2 * i + 1])),
        GeStep::Strip(v) => seq![Mark::Strip(v[0], v[1], v[2], v[3])],
        GeStep::Triangles(v) => Seq::new(
            v.len() / 3,
            |i: int| Mark::Triangle(v[3 * i], v[3 * i + 1], v[3 * i + 2]),
        ),
        GeStep::GlyphSprites(slot, v) => Seq::new(
            v.len() / 2,
            |i: int| Mark::Glyph(slot, v[2 * i], v[2 * i + 1]),
        ),
        GeStep::GlyphRects(v) => Seq::new(
            v.len() / 2,
            |i: int| Mark::GlyphRect(v[2 * i], v[2 * i + 1]),
        ),
        GeStep::TexSprites(tex, v) => Seq::new(
            v.len() / 2,
            |i: int| Mark::Image(tex, v[2 * i], v[2 * i + 1]),
        ),
        GeStep::TexTriangles(tex, v) => Seq::new(
            v.len() / 3,
            |i: int| Mark::ImageTriangle(tex, v[3 * i], v[3 * i + 1], v[3 * i + 2]),
        ),
        GeStep::Scissor(x0, y0, x1, y1) => seq![Mark::Area(x0, y0, x1, y1)],
        GeStep::End => seq![Mark::End],
    }
}

/// What commands draw, in order.
pub open spec fn marks(steps: Seq<GeStep>) -> Seq<Mark>
    decreases steps.len(),
{
    if steps.len() == 0 {
        Seq::empty()
    } else {
        marks(steps.drop_last()) + marks_of(steps.last())
    }
}

pub proof fn lemma_marks_join(a: Seq<GeStep>, b: Seq<GeStep>)
    ensures
        marks(a + b) == marks(a) + marks(b),
    decreases b.len(),
{
    if b.len() == 0 {
        assert(a + b =~= a);
        assert(marks(a) + marks(b) =~= marks(a));
    } else {
        lemma_marks_join(a, b.drop_last());
        assert((a + b).drop_last() =~= a + b.drop_last());
        assert((marks(a) + marks(b.drop_last())) + marks_of(b.last()) =~= marks(a) + (marks(
            b.drop_last(),
        ) + marks_of(b.last())));
    }
}

pub proof fn lemma_marks_one(step: GeStep)
    ensures
        marks(seq![step]) == marks_of(step),
        marks(Seq::<GeStep>::empty()) == Seq::<Mark>::empty(),
{
    let s = seq![step];
    assert(s.drop_last() =~= Seq::<GeStep>::empty());
    assert(s.last() == step);
    assert(marks(s) == marks(s.drop_last()) + marks_of(s.last()));
    assert(Seq::<Mark>::empty() + marks_of(step) =~= marks_of(step));
}

// ---- where a list begins does not matter ----------------------------------------------------

proof fn lemma_shift_records(
    words: Seq<u32>,
    k: int,
    at: int,
    op: u32,
    stride: int,
    texture: Option<u32>,
)
    requires
        0 <= k,
        0 <= at,
        k + at <= words.len(),
        stride >= 2,
    ensures
        records(words, k + at, op, stride, texture) == records(
            words.skip(k),
            at,
            op,
            stride,
            texture,
        ),
    decreases words.len() - at,
{
    let s = words.skip(k);
    if at + stride <= s.len() {
        assert(s[at] == words[k + at] && s[at + 1] == words[k + at + 1]);
        if is_record(s, at, op, texture) {
            lemma_shift_records(words, k, at + stride, op, stride, texture);
            assert(k + (at + stride) == (k + at) + stride);
        }
    }
}

proof fn lemma_shift_glyphs(
    words: Seq<u32>,
    k: int,
    body: int,
    g: int,
    count: int,
    color: u32,
    atlas: Atlas,
    cols: int,
)
    requires
        0 <= k,
        0 <= body,
        0 <= g,
        k + body + 2 * count <= words.len(),
    ensures
        glyph_sprites(words, k + body, g, count, color, atlas, cols) == glyph_sprites(
            words.skip(k),
            body,
            g,
            count,
            color,
            atlas,
            cols,
        ),
        glyph_rects(words, k + body, g, count, color, atlas) == glyph_rects(
            words.skip(k),
            body,
            g,
            count,
            color,
            atlas,
        ),
    decreases count - g,
{
    if g < count {
        let s = words.skip(k);
        assert(s[body + 2 * g] == words[k + body + 2 * g]);
        assert(s[body + 2 * g + 1] == words[k + body + 2 * g + 1]);
        assert(glyph_at(s, body, g) == glyph_at(words, k + body, g));
        lemma_shift_glyphs(words, k, body, g + 1, count, color, atlas, cols);
    }
}

proof fn lemma_shift_run(words: Seq<u32>, k: int, atlases: Seq<Option<Atlas>>, fallback: bool)
    requires
        0 <= k,
        k + 3 <= words.len(),
        k + 3 + 2 * (words[k + 1] as int / 0x1_0000) <= words.len(),
    ensures
        glyph_run_step(words, k, atlases, fallback) == glyph_run_step(
            words.skip(k),
            0,
            atlases,
            fallback,
        ),
{
    let s = words.skip(k);
    let count = words[k + 1] as int / 0x1_0000;
    let slot = words[k + 1] as int % 0x100;
    assert(s[1] == words[k + 1] && s[2] == words[k + 2]);
    if slot < atlases.len() && atlases[slot] is Some {
        let atlas = atlases[slot]->0;
        let cols = match sprite_cols(atlas, fallback) {
            Some(c) => c,
            None => 1,
        };
        lemma_shift_glyphs(words, k, 3, 0, count, words[k + 2], atlas, cols);
    }
}

proof fn lemma_shift_rects(words: Seq<u32>, k: int, at: int, count: nat)
    requires
        0 <= k,
        0 <= at,
        k + at + 4 * count <= words.len(),
    ensures
        rect_verts(words, k + at, count) == rect_verts(words.skip(k), at, count),
{
    let s = words.skip(k);
    let (a, b) = (rect_verts(words, k + at, count), rect_verts(s, at, count));
    assert forall|j: int| 0 <= j < a.len() implies a[j] == b[j] by {
        let o = at + 4 * (j / 2);
        assert(0 <= o && o + 4 <= s.len());
        assert(s[o + 1] == words[k + o + 1] && s[o + 2] == words[k + o + 2] && s[o + 3] == words[k
            + o + 3]);
    }
    assert(a =~= b);
}

proof fn lemma_shift_triangles(words: Seq<u32>, k: int, at: int, count: nat)
    requires
        0 <= k,
        0 <= at,
        k + at + 7 * count <= words.len(),
    ensures
        tri_verts(words, k + at, count) == tri_verts(words.skip(k), at, count),
{
    let s = words.skip(k);
    let (a, b) = (tri_verts(words, k + at, count), tri_verts(s, at, count));
    assert forall|j: int| 0 <= j < a.len() implies a[j] == b[j] by {
        let o = at + 7 * (j / 3);
        assert(0 <= o && o + 7 <= s.len());
        assert(s[o + 1 + j % 3] == words[k + o + 1 + j % 3]);
        assert(s[o + 4 + j % 3] == words[k + o + 4 + j % 3]);
    }
    assert(a =~= b);
}

proof fn lemma_shift_quads(words: Seq<u32>, k: int, at: int, count: nat)
    requires
        0 <= k,
        0 <= at,
        k + at + 9 * count <= words.len(),
    ensures
        quad_verts(words, k + at, count) == quad_verts(words.skip(k), at, count),
{
    let s = words.skip(k);
    let (a, b) = (quad_verts(words, k + at, count), quad_verts(s, at, count));
    assert forall|j: int| 0 <= j < a.len() implies a[j] == b[j] by {
        let o = at + 9 * (j / 2);
        assert(0 <= o && o + 9 <= s.len());
        let i = 2 * (j % 2);
        assert(s[o + 2] == words[k + o + 2] && s[o + 3] == words[k + o + 3]);
        assert(s[o + 4 + i] == words[k + o + 4 + i] && s[o + 5 + i] == words[k + o + 5 + i]);
        assert(s[o + 8] == words[k + o + 8]);
    }
    assert(a =~= b);
}

proof fn lemma_shift_image_triangles(words: Seq<u32>, k: int, at: int, count: nat)
    requires
        0 <= k,
        0 <= at,
        k + at + 12 * count <= words.len(),
    ensures
        tex_tri_verts(words, k + at, count) == tex_tri_verts(words.skip(k), at, count),
{
    let s = words.skip(k);
    let (a, b) = (tex_tri_verts(words, k + at, count), tex_tri_verts(s, at, count));
    assert forall|j: int| 0 <= j < a.len() implies a[j] == b[j] by {
        let o = at + 12 * (j / 3);
        assert(0 <= o && o + 12 <= s.len());
        let i = 3 * (j % 3);
        assert(s[o + 2 + i] == words[k + o + 2 + i] && s[o + 3 + i] == words[k + o + 3 + i]);
        assert(s[o + 4 + i] == words[k + o + 4 + i] && s[o + 11] == words[k + o + 11]);
    }
    assert(a =~= b);
}

/// What the operation at `k` says is what it says at the head of the list that
/// begins there.
#[verifier::rlimit(50)]
proof fn lemma_shift_op(
    words: Seq<u32>,
    k: int,
    areas: Seq<Area>,
    slots: Seq<SlotModel>,
    atlases: Seq<Option<Atlas>>,
    fallback: bool,
)
    requires
        0 <= k <= words.len(),
    ensures
        ({
            let a = decode_op(words, k, areas, slots, atlases, fallback);
            let b = decode_op(words.skip(k), 0, areas, slots, atlases, fallback);
            &&& a is Some <==> b is Some
            &&& a is Some ==> a->0.out == b->0.out && a->0.areas == b->0.areas && a->0.next == k
                + b->0.next
        }),
{
    reveal(decode_op);
    let s = words.skip(k);
    let n = s.len();
    if n > 0 {
        let op = words[k];
        assert(s[0] == op);
        if op == OP_RECT {
            if n >= 4 {
                lemma_shift_records(words, k, 0, op, 4, None);
                lemma_records_inside(s, 0, op, 4, None);
                lemma_shift_rects(words, k, 0, records(s, 0, op, 4, None));
            }
        } else if op == OP_TRI {
            if n >= 7 {
                lemma_shift_records(words, k, 0, op, 7, None);
                lemma_records_inside(s, 0, op, 7, None);
                lemma_shift_triangles(words, k, 0, records(s, 0, op, 7, None));
            }
        } else if op == OP_TEX_QUAD {
            if n >= 9 {
                assert(s[1] == words[k + 1]);
                lemma_shift_records(words, k, 0, op, 9, Some(s[1]));
                lemma_records_inside(s, 0, op, 9, Some(s[1]));
                lemma_shift_quads(words, k, 0, records(s, 0, op, 9, Some(s[1])));
            }
        } else if op == OP_TEX_TRI {
            if n >= 12 {
                assert(s[1] == words[k + 1]);
                lemma_shift_records(words, k, 0, op, 12, Some(s[1]));
                lemma_records_inside(s, 0, op, 12, Some(s[1]));
                lemma_shift_image_triangles(words, k, 0, records(s, 0, op, 12, Some(s[1])));
            }
        } else {
            assert forall|i: int| 0 <= i < n implies #[trigger] s[i] == words[k + i] by {}
            if op == OP_GLYPH_RUN && n >= 3 {
                assert(s[1] == words[k + 1]);
                if 3 + 2 * (s[1] as int / 0x1_0000) <= n {
                    lemma_shift_run(words, k, atlases, fallback);
                }
            }
            if n >= 6 {
                assert(s[1] == words[k + 1] && s[2] == words[k + 2] && s[3] == words[k + 3]);
                assert(s[4] == words[k + 4] && s[5] == words[k + 5]);
                assert(grad_verts(s, 0) == grad_verts(words, k));
            }
            if n >= 3 {
                assert(s[1] == words[k + 1] && s[2] == words[k + 2]);
            }
        }
    }
}

proof fn lemma_shift(
    words: Seq<u32>,
    k: int,
    areas: Seq<Area>,
    slots: Seq<SlotModel>,
    atlases: Seq<Option<Atlas>>,
    fallback: bool,
)
    requires
        0 <= k <= words.len(),
    ensures
        decode_from(words, k, areas, slots, atlases, fallback) == decode_from(
            words.skip(k),
            0,
            areas,
            slots,
            atlases,
            fallback,
        ),
    decreases words.len() - k,
{
    let s = words.skip(k);
    lemma_shift_op(words, k, areas, slots, atlases, fallback);
    match decode_op(s, 0, areas, slots, atlases, fallback) {
        None => {},
        Some(d) => if 0 < d.next <= s.len() {
            lemma_shift(words, k + d.next, d.areas, slots, atlases, fallback);
            assert(words.skip(k + d.next) =~= s.skip(d.next));
            if k > 0 {
                lemma_shift(s, d.next, d.areas, slots, atlases, fallback);
            } else {
                assert(s =~= words);
            }
        },
    }
}

// ---- one operation after the other --------------------------------------------------------------

/// The words of the first operation, for each sort of operation; 0 where there
/// is none that is whole.
pub open spec fn first_len(words: Seq<u32>) -> int {
    let len = if words.len() == 0 {
        0
    } else if words[0] == 1 {
        4
    } else if words[0] == 2 {
        6
    } else if words[0] == 3 && words.len() >= 3 {
        3 + 2 * (words[1] as int / 0x1_0000)
    } else if words[0] == 4 || words[0] == 10 {
        9
    } else if words[0] == 5 {
        3
    } else if words[0] == 6 {
        1
    } else if words[0] == 7 {
        7
    } else if words[0] == 8 {
        12
    } else {
        0
    };
    if len <= words.len() {
        len
    } else {
        0
    }
}

/// A batch draws its first operation and then the others.
proof fn lemma_batch(
    words: Seq<u32>,
    len: int,
    all: int,
    outs: (Seq<GeStep>, Seq<GeStep>, Seq<GeStep>),
    areas: Seq<Area>,
    slots: Seq<SlotModel>,
    atlases: Seq<Option<Atlas>>,
    fallback: bool,
)
    requires
        0 < len <= all <= words.len(),
        decode_op(words, 0, areas, slots, atlases, fallback) == Some(
            Decoded { out: outs.0, next: all, areas },
        ),
        decode_op(words.take(len), 0, areas, slots, atlases, fallback) == Some(
            Decoded { out: outs.1, next: len, areas },
        ),
        all > len ==> decode_op(words.skip(len), 0, areas, slots, atlases, fallback) == Some(
            Decoded { out: outs.2, next: all - len, areas },
        ),
        all == len ==> marks(outs.2) == Seq::<Mark>::empty(),
        marks(outs.0) == marks(outs.1) + marks(outs.2),
    ensures
        marks(decode_from(words, 0, areas, slots, atlases, fallback)) == marks(
            decode_from(words.take(len), 0, areas, slots, atlases, fallback),
        ) + marks(decode_from(words.skip(len), 0, areas, slots, atlases, fallback)),
{
    let (first, rest) = (words.take(len), words.skip(len));
    let tail = decode_from(words, all, areas, slots, atlases, fallback);
    assert(decode_from(words, 0, areas, slots, atlases, fallback) == outs.0 + tail);
    lemma_ends(first, len, areas, slots, atlases, fallback);
    assert(decode_from(first, 0, areas, slots, atlases, fallback) =~= outs.1);
    lemma_shift(words, all, areas, slots, atlases, fallback);
    lemma_shift(rest, all - len, areas, slots, atlases, fallback);
    assert(words.skip(all) =~= rest.skip(all - len));
    lemma_marks_join(outs.0, tail);
    if all > len {
        assert(decode_from(rest, 0, areas, slots, atlases, fallback) == outs.2 + tail);
        lemma_marks_join(outs.2, tail);
    } else {
        assert(rest.skip(0) =~= rest);
    }
    assert((marks(outs.1) + marks(outs.2)) + marks(tail) =~= marks(outs.1) + (marks(outs.2) + marks(
        tail,
    )));
    assert(Seq::<Mark>::empty() + marks(tail) =~= marks(tail));
}

proof fn lemma_ends(
    words: Seq<u32>,
    at: int,
    areas: Seq<Area>,
    slots: Seq<SlotModel>,
    atlases: Seq<Option<Atlas>>,
    fallback: bool,
)
    requires
        at >= words.len(),
    ensures
        decode_from(words, at, areas, slots, atlases, fallback) == Seq::<GeStep>::empty(),
{
    reveal(decode_op);
}

/// The corners of a batch are those of its first operation and then those of
/// the others.
proof fn lemma_join_rects(words: Seq<u32>, more: nat)
    requires
        4 * (1 + more) <= words.len(),
    ensures
        marks_of(GeStep::Sprites(rect_verts(words, 0, 1 + more))) == marks_of(
            GeStep::Sprites(rect_verts(words.take(4), 0, 1)),
        ) + marks_of(GeStep::Sprites(rect_verts(words.skip(4), 0, more))),
{
    let (first, rest) = (words.take(4), words.skip(4));
    let all = 1 + more;
    let v = rect_verts(words, 0, all);
    let one = rect_verts(first, 0, 1);
    let w = rect_verts(rest, 0, more);
    lemma_shift_rects(words, 4, 0, more);
    assert forall|j: int| 0 <= j < 2 implies v[j] == one[j] by {
        assert(j / 2 == 0);
        assert(first[1] == words[1] && first[2] == words[2] && first[3] == words[3]);
    }
    assert forall|j: int| 0 <= j < w.len() implies v[j + 2] == w[j] by {
        let base = rect_verts(words, 4, more);
        assert(base == w);
        assert((j + 2) / 2 == j / 2 + 1 && (j + 2) % 2 == j % 2);
    }
    let (sv, s1, sw) = (GeStep::Sprites(v), GeStep::Sprites(one), GeStep::Sprites(w));
    assert forall|i: int| 0 <= i < marks_of(sv).len() implies marks_of(sv)[i] == (marks_of(s1)
        + marks_of(sw))[i] by {
        if i > 0 {
            assert(v[2 * i] == w[2 * (i - 1)] && v[2 * i + 1] == w[2 * (i - 1) + 1]);
        }
    }
    assert(marks_of(sv) =~= marks_of(s1) + marks_of(sw));
}

#[verifier::rlimit(50)]
proof fn lemma_split_rects(
    words: Seq<u32>,
    areas: Seq<Area>,
    slots: Seq<SlotModel>,
    atlases: Seq<Option<Atlas>>,
    fallback: bool,
)
    requires
        words.len() >= 4,
        words[0] == OP_RECT,
    ensures
        marks(decode_from(words, 0, areas, slots, atlases, fallback)) == marks(
            decode_from(words.take(4), 0, areas, slots, atlases, fallback),
        ) + marks(decode_from(words.skip(4), 0, areas, slots, atlases, fallback)),
{
    reveal(decode_op);
    let (first, rest) = (words.take(4), words.skip(4));
    let texture: Option<u32> = None;
    let more = records(rest, 0, OP_RECT, 4, texture);
    let all = records(words, 0, OP_RECT, 4, texture);
    lemma_shift_records(words, 4, 0, OP_RECT, 4, texture);
    assert(all == 1 + more);
    lemma_records_inside(words, 0, OP_RECT, 4, texture);
    lemma_records_inside(rest, 0, OP_RECT, 4, texture);
    assert(first[0] == words[0] && first[1] == words[1]);
    assert(records(first, 4, OP_RECT, 4, texture) == 0);
    assert(records(first, 0, OP_RECT, 4, texture) == 1);
    if more > 0 {
        assert(rest[0] == OP_RECT);
    }
    let v = rect_verts(words, 0, all);
    let one = rect_verts(first, 0, 1);
    let w = rect_verts(rest, 0, more);
    let (sv, s1, sw) = (GeStep::Sprites(v), GeStep::Sprites(one), GeStep::Sprites(w));
    lemma_join_rects(words, more);
    lemma_marks_one(sv);
    lemma_marks_one(s1);
    lemma_marks_one(sw);
    let (ov, o1, ow) = (seq![sv], seq![s1], seq![sw]);
    if more == 0 {
        assert(marks_of(sw) =~= Seq::<Mark>::empty());
    }
    assert(marks(ov) =~= marks(o1) + marks(ow));
    lemma_batch(
        words,
        4,
        4 * all as int,
        (ov, o1, ow),
        areas,
        slots,
        atlases,
        fallback,
    );
}

/// The corners of a batch are those of its first operation and then those of
/// the others.
proof fn lemma_join_triangles(words: Seq<u32>, more: nat)
    requires
        7 * (1 + more) <= words.len(),
    ensures
        marks_of(GeStep::Triangles(tri_verts(words, 0, 1 + more))) == marks_of(
            GeStep::Triangles(tri_verts(words.take(7), 0, 1)),
        ) + marks_of(GeStep::Triangles(tri_verts(words.skip(7), 0, more))),
{
    let (first, rest) = (words.take(7), words.skip(7));
    let all = 1 + more;
    let v = tri_verts(words, 0, all);
    let one = tri_verts(first, 0, 1);
    let w = tri_verts(rest, 0, more);
    lemma_shift_triangles(words, 7, 0, more);
    assert forall|j: int| 0 <= j < 3 implies v[j] == one[j] by {
        assert(j / 3 == 0);
        assert(first[1 + j % 3] == words[1 + j % 3] && first[4 + j % 3] == words[4 + j % 3]);
    }
    assert forall|j: int| 0 <= j < w.len() implies v[j + 3] == w[j] by {
        let base = tri_verts(words, 7, more);
        assert(base == w);
        assert((j + 3) / 3 == j / 3 + 1 && (j + 3) % 3 == j % 3);
    }
    let (sv, s1, sw) = (GeStep::Triangles(v), GeStep::Triangles(one), GeStep::Triangles(w));
    assert forall|i: int| 0 <= i < marks_of(sv).len() implies marks_of(sv)[i] == (marks_of(s1)
        + marks_of(sw))[i] by {
        if i > 0 {
            assert(v[3 * i] == w[3 * (i - 1)] && v[3 * i + 1] == w[3 * (i - 1) + 1]);
            assert(v[3 * i + 2] == w[3 * (i - 1) + 2]);
        }
    }
    assert(marks_of(sv) =~= marks_of(s1) + marks_of(sw));
}

#[verifier::rlimit(50)]
proof fn lemma_split_triangles(
    words: Seq<u32>,
    areas: Seq<Area>,
    slots: Seq<SlotModel>,
    atlases: Seq<Option<Atlas>>,
    fallback: bool,
)
    requires
        words.len() >= 7,
        words[0] == OP_TRI,
    ensures
        marks(decode_from(words, 0, areas, slots, atlases, fallback)) == marks(
            decode_from(words.take(7), 0, areas, slots, atlases, fallback),
        ) + marks(decode_from(words.skip(7), 0, areas, slots, atlases, fallback)),
{
    reveal(decode_op);
    let (first, rest) = (words.take(7), words.skip(7));
    let texture: Option<u32> = None;
    let more = records(rest, 0, OP_TRI, 7, texture);
    let all = records(words, 0, OP_TRI, 7, texture);
    lemma_shift_records(words, 7, 0, OP_TRI, 7, texture);
    assert(all == 1 + more);
    lemma_records_inside(words, 0, OP_TRI, 7, texture);
    lemma_records_inside(rest, 0, OP_TRI, 7, texture);
    assert(first[0] == words[0] && first[1] == words[1]);
    assert(records(first, 7, OP_TRI, 7, texture) == 0);
    assert(records(first, 0, OP_TRI, 7, texture) == 1);
    if more > 0 {
        assert(rest[0] == OP_TRI);
    }
    let v = tri_verts(words, 0, all);
    let one = tri_verts(first, 0, 1);
    let w = tri_verts(rest, 0, more);
    let (sv, s1, sw) = (GeStep::Triangles(v), GeStep::Triangles(one), GeStep::Triangles(w));
    lemma_join_triangles(words, more);
    lemma_marks_one(sv);
    lemma_marks_one(s1);
    lemma_marks_one(sw);
    let (ov, o1, ow) = (seq![sv], seq![s1], seq![sw]);
    if more == 0 {
        assert(marks_of(sw) =~= Seq::<Mark>::empty());
    }
    assert(marks(ov) =~= marks(o1) + marks(ow));
    lemma_batch(
        words,
        7,
        7 * all as int,
        (ov, o1, ow),
        areas,
        slots,
        atlases,
        fallback,
    );
}

/// The corners of a batch are those of its first operation and then those of
/// the others.
proof fn lemma_join_quads(words: Seq<u32>, more: nat, tex: i32)
    requires
        9 * (1 + more) <= words.len(),
    ensures
        marks_of(GeStep::TexSprites(tex, quad_verts(words, 0, 1 + more))) == marks_of(
            GeStep::TexSprites(tex, quad_verts(words.take(9), 0, 1)),
        ) + marks_of(GeStep::TexSprites(tex, quad_verts(words.skip(9), 0, more))),
{
    let (first, rest) = (words.take(9), words.skip(9));
    let all = 1 + more;
    let v = quad_verts(words, 0, all);
    let one = quad_verts(first, 0, 1);
    let w = quad_verts(rest, 0, more);
    lemma_shift_quads(words, 9, 0, more);
    assert forall|j: int| 0 <= j < 2 implies v[j] == one[j] by {
        assert(j / 2 == 0);
        let i = 2 * (j % 2);
        assert(first[2] == words[2] && first[3] == words[3] && first[8] == words[8]);
        assert(first[4 + i] == words[4 + i] && first[5 + i] == words[5 + i]);
    }
    assert forall|j: int| 0 <= j < w.len() implies v[j + 2] == w[j] by {
        let base = quad_verts(words, 9, more);
        assert(base == w);
        assert((j + 2) / 2 == j / 2 + 1 && (j + 2) % 2 == j % 2);
    }
    let (sv, s1, sw) = (GeStep::TexSprites(tex, v), GeStep::TexSprites(tex, one), GeStep::TexSprites(tex, w));
    assert forall|i: int| 0 <= i < marks_of(sv).len() implies marks_of(sv)[i] == (marks_of(s1)
        + marks_of(sw))[i] by {
        if i > 0 {
            assert(v[2 * i] == w[2 * (i - 1)] && v[2 * i + 1] == w[2 * (i - 1) + 1]);
        }
    }
    assert(marks_of(sv) =~= marks_of(s1) + marks_of(sw));
}

#[verifier::rlimit(50)]
proof fn lemma_split_quads(
    words: Seq<u32>,
    areas: Seq<Area>,
    slots: Seq<SlotModel>,
    atlases: Seq<Option<Atlas>>,
    fallback: bool,
)
    requires
        words.len() >= 9,
        words[0] == OP_TEX_QUAD,
    ensures
        marks(decode_from(words, 0, areas, slots, atlases, fallback)) == marks(
            decode_from(words.take(9), 0, areas, slots, atlases, fallback),
        ) + marks(decode_from(words.skip(9), 0, areas, slots, atlases, fallback)),
{
    reveal(decode_op);
    let (first, rest) = (words.take(9), words.skip(9));
    let texture: Option<u32> = Some(words[1]);
    let more = records(rest, 0, OP_TEX_QUAD, 9, texture);
    let all = records(words, 0, OP_TEX_QUAD, 9, texture);
    lemma_shift_records(words, 9, 0, OP_TEX_QUAD, 9, texture);
    assert(all == 1 + more);
    lemma_records_inside(words, 0, OP_TEX_QUAD, 9, texture);
    lemma_records_inside(rest, 0, OP_TEX_QUAD, 9, texture);
    assert(first[0] == words[0] && first[1] == words[1]);
    assert(records(first, 9, OP_TEX_QUAD, 9, texture) == 0);
    assert(records(first, 0, OP_TEX_QUAD, 9, texture) == 1);
    if more > 0 {
        assert(rest[0] == OP_TEX_QUAD);
        assert(rest[1] == words[1]);
    }
    let v = quad_verts(words, 0, all);
    let one = quad_verts(first, 0, 1);
    let w = quad_verts(rest, 0, more);
    let (sv, s1, sw) = (GeStep::TexSprites(words[1] as i32, v), GeStep::TexSprites(words[1] as i32, one), GeStep::TexSprites(words[1] as i32, w));
    lemma_join_quads(words, more, words[1] as i32);
    lemma_marks_one(sv);
    lemma_marks_one(s1);
    lemma_marks_one(sw);
    let known = resolves(slots, words[1] as i32 as int) is Some;
    let none = Seq::<GeStep>::empty();
    let (ov, o1, ow) = (if known {
        seq![sv]
    } else {
        none
    }, if known {
        seq![s1]
    } else {
        none
    }, if known {
        seq![sw]
    } else {
        none
    });
    if more == 0 {
        assert(marks_of(sw) =~= Seq::<Mark>::empty());
    }
    assert(marks(ov) =~= marks(o1) + marks(ow));
    lemma_batch(
        words,
        9,
        9 * all as int,
        (ov, o1, ow),
        areas,
        slots,
        atlases,
        fallback,
    );
}

/// The corners of a batch are those of its first operation and then those of
/// the others.
proof fn lemma_join_image_triangles(words: Seq<u32>, more: nat, tex: i32)
    requires
        12 * (1 + more) <= words.len(),
    ensures
        marks_of(GeStep::TexTriangles(tex, tex_tri_verts(words, 0, 1 + more))) == marks_of(
            GeStep::TexTriangles(tex, tex_tri_verts(words.take(12), 0, 1)),
        ) + marks_of(GeStep::TexTriangles(tex, tex_tri_verts(words.skip(12), 0, more))),
{
    let (first, rest) = (words.take(12), words.skip(12));
    let all = 1 + more;
    let v = tex_tri_verts(words, 0, all);
    let one = tex_tri_verts(first, 0, 1);
    let w = tex_tri_verts(rest, 0, more);
    lemma_shift_image_triangles(words, 12, 0, more);
    assert forall|j: int| 0 <= j < 3 implies v[j] == one[j] by {
        assert(j / 3 == 0);
        let i = 3 * (j % 3);
        assert(first[2 + i] == words[2 + i] && first[3 + i] == words[3 + i]);
        assert(first[4 + i] == words[4 + i] && first[11] == words[11]);
    }
    assert forall|j: int| 0 <= j < w.len() implies v[j + 3] == w[j] by {
        let base = tex_tri_verts(words, 12, more);
        assert(base == w);
        assert((j + 3) / 3 == j / 3 + 1 && (j + 3) % 3 == j % 3);
    }
    let (sv, s1, sw) = (GeStep::TexTriangles(tex, v), GeStep::TexTriangles(tex, one), GeStep::TexTriangles(tex, w));
    assert forall|i: int| 0 <= i < marks_of(sv).len() implies marks_of(sv)[i] == (marks_of(s1)
        + marks_of(sw))[i] by {
        if i > 0 {
            assert(v[3 * i] == w[3 * (i - 1)] && v[3 * i + 1] == w[3 * (i - 1) + 1]);
            assert(v[3 * i + 2] == w[3 * (i - 1) + 2]);
        }
    }
    assert(marks_of(sv) =~= marks_of(s1) + marks_of(sw));
}

#[verifier::rlimit(50)]
proof fn lemma_split_image_triangles(
    words: Seq<u32>,
    areas: Seq<Area>,
    slots: Seq<SlotModel>,
    atlases: Seq<Option<Atlas>>,
    fallback: bool,
)
    requires
        words.len() >= 12,
        words[0] == OP_TEX_TRI,
    ensures
        marks(decode_from(words, 0, areas, slots, atlases, fallback)) == marks(
            decode_from(words.take(12), 0, areas, slots, atlases, fallback),
        ) + marks(decode_from(words.skip(12), 0, areas, slots, atlases, fallback)),
{
    reveal(decode_op);
    let (first, rest) = (words.take(12), words.skip(12));
    let texture: Option<u32> = Some(words[1]);
    let more = records(rest, 0, OP_TEX_TRI, 12, texture);
    let all = records(words, 0, OP_TEX_TRI, 12, texture);
    lemma_shift_records(words, 12, 0, OP_TEX_TRI, 12, texture);
    assert(all == 1 + more);
    lemma_records_inside(words, 0, OP_TEX_TRI, 12, texture);
    lemma_records_inside(rest, 0, OP_TEX_TRI, 12, texture);
    assert(first[0] == words[0] && first[1] == words[1]);
    assert(records(first, 12, OP_TEX_TRI, 12, texture) == 0);
    assert(records(first, 0, OP_TEX_TRI, 12, texture) == 1);
    if more > 0 {
        assert(rest[0] == OP_TEX_TRI);
        assert(rest[1] == words[1]);
    }
    let v = tex_tri_verts(words, 0, all);
    let one = tex_tri_verts(first, 0, 1);
    let w = tex_tri_verts(rest, 0, more);
    let (sv, s1, sw) = (GeStep::TexTriangles(words[1] as i32, v), GeStep::TexTriangles(words[1] as i32, one), GeStep::TexTriangles(words[1] as i32, w));
    lemma_join_image_triangles(words, more, words[1] as i32);
    lemma_marks_one(sv);
    lemma_marks_one(s1);
    lemma_marks_one(sw);
    let known = resolves(slots, words[1] as i32 as int) is Some;
    let none = Seq::<GeStep>::empty();
    let (ov, o1, ow) = (if known {
        seq![sv]
    } else {
        none
    }, if known {
        seq![s1]
    } else {
        none
    }, if known {
        seq![sw]
    } else {
        none
    });
    if more == 0 {
        assert(marks_of(sw) =~= Seq::<Mark>::empty());
    }
    assert(marks(ov) =~= marks(o1) + marks(ow));
    lemma_batch(
        words,
        12,
        12 * all as int,
        (ov, o1, ow),
        areas,
        slots,
        atlases,
        fallback,
    );
}

/// The first operation of a list draws its marks, and what is behind it draws
/// on from there.
#[verifier::rlimit(50)]
proof fn lemma_first_op(
    words: Seq<u32>,
    areas: Seq<Area>,
    slots: Seq<SlotModel>,
    atlases: Seq<Option<Atlas>>,
    fallback: bool,
)
    requires
        first_len(words) > 0,
    ensures
        decode_op(words, 0, areas, slots, atlases, fallback) is Some,
        marks(decode_from(words, 0, areas, slots, atlases, fallback)) == marks(
            decode_from(words.take(first_len(words)), 0, areas, slots, atlases, fallback),
        ) + marks(
            decode_from(
                words.skip(first_len(words)),
                0,
                decode_op(words, 0, areas, slots, atlases, fallback)->0.areas,
                slots,
                atlases,
                fallback,
            ),
        ),
{
    reveal(decode_op);
    let len = first_len(words);
    if words[0] == OP_RECT {
        lemma_split_rects(words, areas, slots, atlases, fallback);
    } else if words[0] == OP_TRI {
        lemma_split_triangles(words, areas, slots, atlases, fallback);
    } else if words[0] == OP_TEX_QUAD {
        lemma_split_quads(words, areas, slots, atlases, fallback);
    } else if words[0] == OP_TEX_TRI {
        lemma_split_image_triangles(words, areas, slots, atlases, fallback);
    } else {
        let first = words.take(len);
        let d = decode_op(words, 0, areas, slots, atlases, fallback)->0;
        assert(d.next == len);
        lemma_shift(words, len, d.areas, slots, atlases, fallback);
        let tail = decode_from(words, len, d.areas, slots, atlases, fallback);
        lemma_marks_join(d.out, tail);
        lemma_alone(words, areas, slots, atlases, fallback);
        assert(decode_from(first, len, d.areas, slots, atlases, fallback) =~= Seq::<
            GeStep,
        >::empty());
        assert(decode_from(first, 0, areas, slots, atlases, fallback) =~= d.out);
    }
}

/// An operation that is not batched says the same alone.
proof fn lemma_alone(
    words: Seq<u32>,
    areas: Seq<Area>,
    slots: Seq<SlotModel>,
    atlases: Seq<Option<Atlas>>,
    fallback: bool,
)
    requires
        first_len(words) > 0,
        words[0] != OP_RECT && words[0] != OP_TRI && words[0] != OP_TEX_QUAD && words[0]
            != OP_TEX_TRI,
    ensures
        decode_op(words.take(first_len(words)), 0, areas, slots, atlases, fallback) == decode_op(
            words,
            0,
            areas,
            slots,
            atlases,
            fallback,
        ),
{
    reveal(decode_op);
    let len = first_len(words);
    let first = words.take(len);
    assert forall|i: int| 0 <= i < len implies #[trigger] first[i] == words[i] by {}
    assert(first[0] == words[0]);
    if words[0] == OP_GLYPH_RUN {
        crate::decode::lemma_same_run(first, words.skip(len), 0, atlases, fallback);
        assert(first + words.skip(len) =~= words);
    }
}

// ---- laws -----------------------------------------------------------------------------------------

/// The drawing areas that are open after a list of whole operations.
pub open spec fn areas_after(words: Seq<u32>, areas: Seq<Area>) -> Seq<Area>
    decreases words.len(),
{
    let len = first_len(words);
    if 0 < len <= words.len() {
        areas_after(
            words.skip(len),
            decode_op(words, 0, areas, Seq::empty(), Seq::empty(), false)->0.areas,
        )
    } else {
        areas
    }
}

/// A list holds whole operations and nothing else.
pub open spec fn is_whole(words: Seq<u32>) -> bool
    decreases words.len(),
{
    words.len() == 0 || 0 < first_len(words) <= words.len() && is_whole(
        words.skip(first_len(words)),
    )
}

/// What a list draws is what its operations draw one after the other: a list
/// behind one of whole operations draws on in the areas that are then open.
pub proof fn law_lists_are_drawn_in_order(
    before: Seq<u32>,
    after: Seq<u32>,
    areas: Seq<Area>,
    slots: Seq<SlotModel>,
    atlases: Seq<Option<Atlas>>,
    fallback: bool,
)
    requires
        is_whole(before),
    ensures
        marks(decode_from(before + after, 0, areas, slots, atlases, fallback)) == marks(
            decode_from(before, 0, areas, slots, atlases, fallback),
        ) + marks(
            decode_from(after, 0, areas_after(before, areas), slots, atlases, fallback),
        ),
    decreases before.len(),
{
    let all = before + after;
    if before.len() == 0 {
        assert(all =~= after);
        assert(decode_from(before, 0, areas, slots, atlases, fallback) =~= Seq::<GeStep>::empty());
        let m = marks(decode_from(after, 0, areas, slots, atlases, fallback));
        assert(Seq::<Mark>::empty() + m =~= m);
    } else {
        let len = first_len(before);
        assert(all[0] == before[0]);
        if before.len() > 1 {
            assert(all[1] == before[1]);
        }
        assert(first_len(all) == len);
        lemma_first_op(all, areas, slots, atlases, fallback);
        lemma_first_op(before, areas, slots, atlases, fallback);
        assert(all.take(len) =~= before.take(len));
        assert(all.skip(len) =~= before.skip(len) + after);
        let next = decode_op(before, 0, areas, slots, atlases, fallback)->0.areas;
        assert(all.take(before.len() as int) =~= before);
        assert(before.take(before.len() as int) =~= before);
        lemma_same_areas(all, before, areas, slots, atlases, fallback);
        lemma_same_areas(before, before, areas, slots, atlases, fallback);
        law_lists_are_drawn_in_order(before.skip(len), after, next, slots, atlases, fallback);
        let own = marks(decode_from(before.take(len), 0, areas, slots, atlases, fallback));
        let a = marks(decode_from(before.skip(len), 0, next, slots, atlases, fallback));
        let b = marks(
            decode_from(after, 0, areas_after(before, areas), slots, atlases, fallback),
        );
        assert(own + (a + b) =~= (own + a) + b);
    }
}

proof fn lemma_same_areas(
    all: Seq<u32>,
    before: Seq<u32>,
    areas: Seq<Area>,
    slots: Seq<SlotModel>,
    atlases: Seq<Option<Atlas>>,
    fallback: bool,
)
    requires
        0 < first_len(before) <= before.len() <= all.len(),
        all.take(before.len() as int) == before,
    ensures
        decode_op(all, 0, areas, slots, atlases, fallback) is Some,
        decode_op(before, 0, areas, Seq::empty(), Seq::empty(), false) is Some,
        decode_op(all, 0, areas, slots, atlases, fallback)->0.areas == decode_op(
            before,
            0,
            areas,
            Seq::empty(),
            Seq::empty(),
            false,
        )->0.areas,
{
    reveal(decode_op);
    let cut = all.take(before.len() as int);
    assert(cut[0] == all[0]);
    if before.len() >= 3 {
        assert(cut[1] == all[1] && cut[2] == all[2]);
    }
}

/// A pass begins, draws the marks of its list, and ends.
pub proof fn law_pass_draws_the_list(
    words: Seq<u32>,
    slots: Seq<SlotModel>,
    atlases: Seq<Option<Atlas>>,
    fallback: bool,
)
    ensures
        marks(pass(words, slots, atlases, fallback)) == seq![Mark::Begin] + marks(
            decode_from(words, 0, Seq::empty(), slots, atlases, fallback),
        ) + seq![Mark::End],
{
    let inner = decode_from(words, 0, Seq::empty(), slots, atlases, fallback);
    let (b, e) = (seq![GeStep::Begin], seq![GeStep::End]);
    lemma_marks_join(b + inner, e);
    lemma_marks_join(b, inner);
    lemma_marks_one(GeStep::Begin);
    lemma_marks_one(GeStep::End);
}

/// What a list draws in the areas that are open.
pub open spec fn drawn(
    words: Seq<u32>,
    areas: Seq<Area>,
    slots: Seq<SlotModel>,
    atlases: Seq<Option<Atlas>>,
    fallback: bool,
) -> Seq<Mark> {
    marks(decode_from(words, 0, areas, slots, atlases, fallback))
}

/// An operation between others draws its marks between theirs.
pub proof fn lemma_between(
    before: Seq<u32>,
    op: Seq<u32>,
    after: Seq<u32>,
    areas: Seq<Area>,
    slots: Seq<SlotModel>,
    atlases: Seq<Option<Atlas>>,
    fallback: bool,
)
    requires
        is_whole(before),
        first_len(op) == op.len(),
        op.len() > 0,
    ensures
        ({
            let open = areas_after(before, areas);
            let d = decode_op(op, 0, open, slots, atlases, fallback);
            &&& d is Some
            &&& drawn(before + op + after, areas, slots, atlases, fallback) == drawn(
                before,
                areas,
                slots,
                atlases,
                fallback,
            ) + drawn(op, open, slots, atlases, fallback) + drawn(
                after,
                d->0.areas,
                slots,
                atlases,
                fallback,
            )
        }),
{
    let open = areas_after(before, areas);
    assert(before + op + after =~= before + (op + after));
    law_lists_are_drawn_in_order(before, op + after, areas, slots, atlases, fallback);
    assert(op.skip(op.len() as int) =~= Seq::<u32>::empty());
    assert(is_whole(op.skip(op.len() as int)));
    assert(is_whole(op));
    law_lists_are_drawn_in_order(op, after, open, slots, atlases, fallback);
    assert(op.take(op.len() as int) =~= op);
    lemma_same_areas(op, op, open, slots, atlases, fallback);
    assert(areas_after(op.skip(op.len() as int), decode_op(
        op,
        0,
        open,
        Seq::empty(),
        Seq::empty(),
        false,
    )->0.areas) == decode_op(op, 0, open, Seq::empty(), Seq::empty(), false)->0.areas);
    assert(areas_after(op, open) == decode_op(op, 0, open, slots, atlases, fallback)->0.areas);
    let (a, b, c) = (
        drawn(before, areas, slots, atlases, fallback),
        drawn(op, open, slots, atlases, fallback),
        drawn(after, areas_after(op, open), slots, atlases, fallback),
    );
    assert(a + (b + c) =~= a + b + c);
}

/// What one operation alone draws is what it says.
pub proof fn lemma_drawn_op(
    op: Seq<u32>,
    areas: Seq<Area>,
    slots: Seq<SlotModel>,
    atlases: Seq<Option<Atlas>>,
    fallback: bool,
)
    requires
        decode_op(op, 0, areas, slots, atlases, fallback) is Some,
        decode_op(op, 0, areas, slots, atlases, fallback)->0.next == op.len(),
        op.len() > 0,
    ensures
        drawn(op, areas, slots, atlases, fallback) == marks(
            decode_op(op, 0, areas, slots, atlases, fallback)->0.out,
        ),
{
    let d = decode_op(op, 0, areas, slots, atlases, fallback)->0;
    lemma_ends(op, op.len() as int, d.areas, slots, atlases, fallback);
    assert(d.out + Seq::<GeStep>::empty() =~= d.out);
}

/// A position that vertices can hold.
pub open spec fn fits16(v: int) -> bool {
    -0x8000 <= v < 0x8000
}

/// A box at this place and of this size has corners that vertices can hold.
pub open spec fn box_fits(x: int, y: int, w: int, h: int) -> bool {
    fits16(x) && fits16(y) && 0 <= w && 0 <= h && fits16(x + w) && fits16(y + h)
}

#[verifier::rlimit(50)]
proof fn lemma_rect_op(
    x: int,
    y: int,
    w: int,
    h: int,
    color: u32,
    areas: Seq<Area>,
    slots: Seq<SlotModel>,
    atlases: Seq<Option<Atlas>>,
    fallback: bool,
)
    requires
        box_fits(x, y, w, h),
    ensures
        ({
            let op = rect_record(x, y, w, h, color);
            let d = decode_op(op, 0, areas, slots, atlases, fallback);
            &&& first_len(op) == op.len()
            &&& d is Some && d->0.areas == areas
            &&& drawn(op, areas, slots, atlases, fallback) == seq![
        Mark::Rect(
            VertC { color, x: x as i16, y: y as i16 },
            VertC { color, x: (x + w) as i16, y: (y + h) as i16 },
        ),
    ]
        }),
{
    let op = rect_record(x, y, w, h, color);
    let want = seq![
        Mark::Rect(
            VertC { color, x: x as i16, y: y as i16 },
            VertC { color, x: (x + w) as i16, y: (y + h) as i16 },
        ),
    ];
    let step = GeStep::Sprites(rect_verts(op, 0, 1));
    assert(marks_of(step) =~= want) by {
        law_packed_words_unpack(x, y);
        law_packed_words_unpack(w, h);
    }
    lemma_marks_one(step);
    assert(records(op, 4, 1, 4, None) == 0);
    assert(records(op, 0, 1, 4, None) == 1);
    assert(decode_op(op, 0, areas, slots, atlases, fallback) == Some(
        Decoded { out: seq![step], next: 4, areas },
    )) by {
        reveal(decode_op);
    }
    lemma_drawn_op(op, areas, slots, atlases, fallback);
}

/// A rectangle that was put on the list is drawn from its near corner to its far
/// one in its colour, behind what was put there before and under what comes
/// after.
#[verifier::rlimit(50)]
pub proof fn law_rect_is_drawn(
    before: Seq<u32>,
    x: int,
    y: int,
    w: int,
    h: int,
    color: u32,
    after: Seq<u32>,
    areas: Seq<Area>,
    slots: Seq<SlotModel>,
    atlases: Seq<Option<Atlas>>,
    fallback: bool,
)
    requires
        is_whole(before),
        box_fits(x, y, w, h),
    ensures
        drawn(before + rect_record(x, y, w, h, color) + after, areas, slots, atlases, fallback)
            == drawn(before, areas, slots, atlases, fallback) + seq![
            Mark::Rect(
                VertC { color, x: x as i16, y: y as i16 },
                VertC { color, x: (x + w) as i16, y: (y + h) as i16 },
            ),
        ] + drawn(after, areas_after(before, areas), slots, atlases, fallback),
{
    let op = rect_record(x, y, w, h, color);
    lemma_between(before, op, after, areas, slots, atlases, fallback);
    lemma_rect_op(x, y, w, h, color, areas_after(before, areas), slots, atlases, fallback);
}

proof fn lemma_image_corners(
    tex: u32,
    x: int,
    y: int,
    w: int,
    h: int,
    uv: (u32, u32, u32, u32),
    color: u32,
)
    requires
        box_fits(x, y, w, h),
    ensures
        marks_of(
            GeStep::TexSprites(
                tex as i32,
                quad_verts(tex_quad_record(tex, x, y, w, h, uv, color), 0, 1),
            ),
        ) == seq![
            Mark::Image(
                tex as i32,
                VertUv { u: uv.0, v: uv.1, color, x: x as i16, y: y as i16 },
                VertUv { u: uv.2, v: uv.3, color, x: (x + w) as i16, y: (y + h) as i16 },
            ),
        ],
{
    law_packed_words_unpack(x, y);
    law_packed_words_unpack(w, h);
    let op = tex_quad_record(tex, x, y, w, h, uv, color);
    let v = quad_verts(op, 0, 1);
    assert(v[0] == (VertUv { u: uv.0, v: uv.1, color, x: x as i16, y: y as i16 }));
    assert(v[1] == (VertUv { u: uv.2, v: uv.3, color, x: (x + w) as i16, y: (y + h) as i16 }));
    assert(marks_of(GeStep::TexSprites(tex as i32, v)) =~= seq![
        Mark::Image(tex as i32, v[0], v[1]),
    ]);
}

#[verifier::rlimit(50)]
proof fn lemma_image_op(
    tex: u32,
    x: int,
    y: int,
    w: int,
    h: int,
    uv: (u32, u32, u32, u32),
    color: u32,
    areas: Seq<Area>,
    slots: Seq<SlotModel>,
    atlases: Seq<Option<Atlas>>,
    fallback: bool,
)
    requires
        box_fits(x, y, w, h),
    ensures
        ({
            let op = tex_quad_record(tex, x, y, w, h, uv, color);
            let d = decode_op(op, 0, areas, slots, atlases, fallback);
            &&& first_len(op) == op.len()
            &&& d is Some && d->0.areas == areas
            &&& drawn(op, areas, slots, atlases, fallback) == (if resolves(
        slots,
        tex as i32 as int,
    ) is Some {
        seq![
            Mark::Image(
                tex as i32,
                VertUv { u: uv.0, v: uv.1, color, x: x as i16, y: y as i16 },
                VertUv { u: uv.2, v: uv.3, color, x: (x + w) as i16, y: (y + h) as i16 },
            ),
        ]
    } else {
        Seq::<Mark>::empty()
    })
        }),
{
    let op = tex_quad_record(tex, x, y, w, h, uv, color);
    let want = (if resolves(
        slots,
        tex as i32 as int,
    ) is Some {
        seq![
            Mark::Image(
                tex as i32,
                VertUv { u: uv.0, v: uv.1, color, x: x as i16, y: y as i16 },
                VertUv { u: uv.2, v: uv.3, color, x: (x + w) as i16, y: (y + h) as i16 },
            ),
        ]
    } else {
        Seq::<Mark>::empty()
    });
    lemma_image_corners(tex, x, y, w, h, uv, color);
    let step = GeStep::TexSprites(tex as i32, quad_verts(op, 0, 1));
    lemma_marks_one(step);
    assert(records(op, 9, 4, 9, Some(tex)) == 0);
    assert(records(op, 0, 4, 9, Some(tex)) == 1);
    assert(decode_op(op, 0, areas, slots, atlases, fallback) == Some(
        Decoded {
            out: if resolves(slots, tex as i32 as int) is Some {
                seq![step]
            } else {
                Seq::empty()
            },
            next: 9,
            areas,
        },
    )) by {
        reveal(decode_op);
    }
    lemma_drawn_op(op, areas, slots, atlases, fallback);
}

/// A textured rectangle that was put on the list is drawn with its first texture
/// corner at its near corner and its second one at its far corner. Without a
/// live texture nothing is drawn.
#[verifier::rlimit(50)]
pub proof fn law_image_is_drawn(
    before: Seq<u32>,
    tex: u32,
    x: int,
    y: int,
    w: int,
    h: int,
    uv: (u32, u32, u32, u32),
    color: u32,
    after: Seq<u32>,
    areas: Seq<Area>,
    slots: Seq<SlotModel>,
    atlases: Seq<Option<Atlas>>,
    fallback: bool,
)
    requires
        is_whole(before),
        box_fits(x, y, w, h),
    ensures
        drawn(
            before + tex_quad_record(tex, x, y, w, h, uv, color) + after,
            areas,
            slots,
            atlases,
            fallback,
        ) == drawn(before, areas, slots, atlases, fallback) + (if resolves(
            slots,
            tex as i32 as int,
        ) is Some {
            seq![
                Mark::Image(
                    tex as i32,
                    VertUv { u: uv.0, v: uv.1, color, x: x as i16, y: y as i16 },
                    VertUv { u: uv.2, v: uv.3, color, x: (x + w) as i16, y: (y + h) as i16 },
                ),
            ]
        } else {
            Seq::<Mark>::empty()
        }) + drawn(after, areas_after(before, areas), slots, atlases, fallback),
{
    let op = tex_quad_record(tex, x, y, w, h, uv, color);
    lemma_between(before, op, after, areas, slots, atlases, fallback);
    lemma_image_op(tex, x, y, w, h, uv, color, areas_after(before, areas), slots, atlases, fallback);
}

/// A triangle that was put on the list is drawn with each corner in its own
/// colour.
#[verifier::rlimit(50)]
pub proof fn law_triangle_is_drawn(
    before: Seq<u32>,
    p: ((i32, i32), (i32, i32), (i32, i32)),
    c: (u32, u32, u32),
    after: Seq<u32>,
    areas: Seq<Area>,
    slots: Seq<SlotModel>,
    atlases: Seq<Option<Atlas>>,
    fallback: bool,
)
    requires
        is_whole(before),
        fits16(p.0.0 as int) && fits16(p.0.1 as int),
        fits16(p.1.0 as int) && fits16(p.1.1 as int),
        fits16(p.2.0 as int) && fits16(p.2.1 as int),
    ensures
        drawn(before + tri_record(p, c) + after, areas, slots, atlases, fallback) == drawn(
            before,
            areas,
            slots,
            atlases,
            fallback,
        ) + seq![
            Mark::Triangle(
                VertC { color: c.0, x: p.0.0 as i16, y: p.0.1 as i16 },
                VertC { color: c.1, x: p.1.0 as i16, y: p.1.1 as i16 },
                VertC { color: c.2, x: p.2.0 as i16, y: p.2.1 as i16 },
            ),
        ] + drawn(after, areas_after(before, areas), slots, atlases, fallback),
{
    let op = tri_record(p, c);
    let open = areas_after(before, areas);
    lemma_between(before, op, after, areas, slots, atlases, fallback);
    law_packed_words_unpack(p.0.0 as int, p.0.1 as int);
    law_packed_words_unpack(p.1.0 as int, p.1.1 as int);
    law_packed_words_unpack(p.2.0 as int, p.2.1 as int);
    reveal(decode_op);
    assert(records(op, 7, 7, 7, None) == 0);
    assert(records(op, 0, 7, 7, None) == 1);
    lemma_drawn_op(op, open, slots, atlases, fallback);
    let step = GeStep::Triangles(tri_verts(op, 0, 1));
    lemma_marks_one(step);
    assert(marks_of(step) =~= seq![
        Mark::Triangle(
            VertC { color: c.0, x: p.0.0 as i16, y: p.0.1 as i16 },
            VertC { color: c.1, x: p.1.0 as i16, y: p.1.1 as i16 },
            VertC { color: c.2, x: p.2.0 as i16, y: p.2.1 as i16 },
        ),
    ]);
}

/// A corner with its texture position.
pub open spec fn corner_of(a: (i32, i32, u32, u32), color: u32) -> VertUv {
    VertUv { u: a.2, v: a.3, color, x: a.0 as i16, y: a.1 as i16 }
}

/// A textured triangle that was put on the list is drawn with each corner at its
/// own texture position; without a live texture nothing is drawn.
#[verifier::rlimit(50)]
pub proof fn law_image_triangle_is_drawn(
    before: Seq<u32>,
    tex: u32,
    a: (i32, i32, u32, u32),
    b: (i32, i32, u32, u32),
    c: (i32, i32, u32, u32),
    color: u32,
    after: Seq<u32>,
    areas: Seq<Area>,
    slots: Seq<SlotModel>,
    atlases: Seq<Option<Atlas>>,
    fallback: bool,
)
    requires
        is_whole(before),
        fits16(a.0 as int) && fits16(a.1 as int),
        fits16(b.0 as int) && fits16(b.1 as int),
        fits16(c.0 as int) && fits16(c.1 as int),
    ensures
        drawn(
            before + tex_tri_record(tex, a, b, c, color) + after,
            areas,
            slots,
            atlases,
            fallback,
        ) == drawn(before, areas, slots, atlases, fallback) + (if resolves(
            slots,
            tex as i32 as int,
        ) is Some {
            seq![
                Mark::ImageTriangle(
                    tex as i32,
                    corner_of(a, color),
                    corner_of(b, color),
                    corner_of(c, color),
                ),
            ]
        } else {
            Seq::<Mark>::empty()
        }) + drawn(after, areas_after(before, areas), slots, atlases, fallback),
{
    let op = tex_tri_record(tex, a, b, c, color);
    let open = areas_after(before, areas);
    lemma_between(before, op, after, areas, slots, atlases, fallback);
    law_packed_words_unpack(a.0 as int, a.1 as int);
    law_packed_words_unpack(b.0 as int, b.1 as int);
    law_packed_words_unpack(c.0 as int, c.1 as int);
    reveal(decode_op);
    assert(records(op, 12, 8, 12, Some(tex)) == 0);
    assert(records(op, 0, 8, 12, Some(tex)) == 1);
    lemma_drawn_op(op, open, slots, atlases, fallback);
    let step = GeStep::TexTriangles(tex as i32, tex_tri_verts(op, 0, 1));
    lemma_marks_one(step);
    assert(marks_of(step) =~= seq![
        Mark::ImageTriangle(
            tex as i32,
            corner_of(a, color),
            corner_of(b, color),
            corner_of(c, color),
        ),
    ]);
}

/// The corners of a gradient from the top left to the bottom right.
spec fn strip_of(x: int, y: int, w: int, h: int, from: u32, to: u32, dir: u32) -> Mark {
    let (up, left, right) = (dir == 1, dir == 2, dir == 3);
    let shade = |on: bool|
        if on {
            to
        } else {
            from
        };
    let down = !up && !left && !right;
    let (x0, y0, x1, y1) = (x as i16, y as i16, (x + w) as i16, (y + h) as i16);
    Mark::Strip(
        VertC { color: shade(up || left), x: x0, y: y0 },
        VertC { color: shade(up || right), x: x1, y: y0 },
        VertC { color: shade(down || left), x: x0, y: y1 },
        VertC { color: shade(down || right), x: x1, y: y1 },
    )
}

#[verifier::rlimit(50)]
proof fn lemma_gradient_op(
    x: int,
    y: int,
    w: int,
    h: int,
    from: u32,
    to: u32,
    dir: u32,
    areas: Seq<Area>,
    slots: Seq<SlotModel>,
    atlases: Seq<Option<Atlas>>,
    fallback: bool,
)
    requires
        box_fits(x, y, w, h),
    ensures
        ({
            let op = grad_record(x, y, w, h, from, to, dir);
            let d = decode_op(op, 0, areas, slots, atlases, fallback);
            &&& first_len(op) == op.len()
            &&& d is Some && d->0.areas == areas
            &&& drawn(op, areas, slots, atlases, fallback) == seq![strip_of(x, y, w, h, from, to, dir)]
        }),
{
    let op = grad_record(x, y, w, h, from, to, dir);
    let want = seq![strip_of(x, y, w, h, from, to, dir)];
    let step = GeStep::Strip(grad_verts(op, 0));
    assert(marks_of(step) =~= want) by {
        law_packed_words_unpack(x, y);
        law_packed_words_unpack(w, h);
        assert(op[1] == packed(x, y) as u32 && op[2] == packed(w, h) as u32);
        assert(op[3] == from && op[4] == to && op[5] == dir);
    }
    lemma_marks_one(step);
    assert(decode_op(op, 0, areas, slots, atlases, fallback) == Some(
        Decoded { out: seq![step], next: 6, areas },
    )) by {
        reveal(decode_op);
    }
    lemma_drawn_op(op, areas, slots, atlases, fallback);
}

/// A gradient that was put on the list is drawn over its box, corner by corner
/// from the top left to the bottom right: to the bottom, to the top, to the
/// right or to the left the corners on that side have the second colour, and the
/// others the first.
#[verifier::rlimit(50)]
pub proof fn law_gradient_is_drawn(
    before: Seq<u32>,
    x: int,
    y: int,
    w: int,
    h: int,
    from: u32,
    to: u32,
    dir: u32,
    after: Seq<u32>,
    areas: Seq<Area>,
    slots: Seq<SlotModel>,
    atlases: Seq<Option<Atlas>>,
    fallback: bool,
)
    requires
        is_whole(before),
        box_fits(x, y, w, h),
    ensures
        ({
            let (up, left, right) = (dir == 1, dir == 2, dir == 3);
            let shade = |on: bool|
                if on {
                    to
                } else {
                    from
                };
            let down = !up && !left && !right;
            let (x0, y0, x1, y1) = (x as i16, y as i16, (x + w) as i16, (y + h) as i16);
            drawn(
                before + grad_record(x, y, w, h, from, to, dir) + after,
                areas,
                slots,
                atlases,
                fallback,
            ) == drawn(before, areas, slots, atlases, fallback) + seq![
                Mark::Strip(
                    VertC { color: shade(up || left), x: x0, y: y0 },
                    VertC { color: shade(up || right), x: x1, y: y0 },
                    VertC { color: shade(down || left), x: x0, y: y1 },
                    VertC { color: shade(down || right), x: x1, y: y1 },
                ),
            ] + drawn(after, areas_after(before, areas), slots, atlases, fallback)
        }),
{
    let op = grad_record(x, y, w, h, from, to, dir);
    lemma_between(before, op, after, areas, slots, atlases, fallback);
    lemma_gradient_op(x, y, w, h, from, to, dir, areas_after(before, areas), slots, atlases, fallback);
}

/// A drawing area that was put on the list holds from its near corner to its far
/// one, and is open for what comes after.
#[verifier::rlimit(50)]
pub proof fn law_area_is_opened(
    before: Seq<u32>,
    x: int,
    y: int,
    w: int,
    h: int,
    after: Seq<u32>,
    areas: Seq<Area>,
    slots: Seq<SlotModel>,
    atlases: Seq<Option<Atlas>>,
    fallback: bool,
)
    requires
        is_whole(before),
        fits16(x) && fits16(y),
        0 <= w < 0x1_0000 && 0 <= h < 0x1_0000,
    ensures
        ({
            let a = (x as i32, y as i32, (x + w) as i32, (y + h) as i32);
            drawn(before + scissor_record(x, y, w, h) + after, areas, slots, atlases, fallback)
                == drawn(before, areas, slots, atlases, fallback) + seq![
                Mark::Area(a.0, a.1, a.2, a.3),
            ] + drawn(after, areas_after(before, areas).push(a), slots, atlases, fallback)
        }),
{
    let op = scissor_record(x, y, w, h);
    let open = areas_after(before, areas);
    lemma_between(before, op, after, areas, slots, atlases, fallback);
    law_packed_words_unpack(x, y);
    law_packed_words_unpack(w, h);
    reveal(decode_op);
    lemma_drawn_op(op, open, slots, atlases, fallback);
    let a = (x as i32, y as i32, (x + w) as i32, (y + h) as i32);
    lemma_marks_one(GeStep::Scissor(a.0, a.1, a.2, a.3));
}

/// Closing a drawing area brings back the one that was open before it, or the
/// whole screen.
#[verifier::rlimit(50)]
pub proof fn law_area_is_closed(
    before: Seq<u32>,
    after: Seq<u32>,
    areas: Seq<Area>,
    open: Seq<Area>,
    top: Area,
    slots: Seq<SlotModel>,
    atlases: Seq<Option<Atlas>>,
    fallback: bool,
)
    requires
        is_whole(before),
        areas_after(before, areas) == open.push(top),
    ensures
        ({
            let a = if open.len() > 0 {
                open.last()
            } else {
                (0, 0, 480, 272)
            };
            drawn(before + seq![6u32] + after, areas, slots, atlases, fallback) == drawn(
                before,
                areas,
                slots,
                atlases,
                fallback,
            ) + seq![Mark::Area(a.0, a.1, a.2, a.3)] + drawn(
                after,
                open,
                slots,
                atlases,
                fallback,
            )
        }),
{
    let op = seq![6u32];
    lemma_between(before, op, after, areas, slots, atlases, fallback);
    reveal(decode_op);
    lemma_drawn_op(op, open.push(top), slots, atlases, fallback);
    assert(open.push(top).drop_last() =~= open);
    let a = if open.len() > 0 {
        open.last()
    } else {
        (0, 0, 480, 272)
    };
    lemma_marks_one(GeStep::Scissor(a.0, a.1, a.2, a.3));
}

/// A list leaves the drawing areas as they are unless it opens or closes one.
#[verifier::rlimit(50)]
pub proof fn law_areas_stay_open(
    before: Seq<u32>,
    op: Seq<u32>,
    x: int,
    y: int,
    w: int,
    h: int,
    areas: Seq<Area>,
)
    requires
        is_whole(before),
        first_len(op) == op.len(),
        op.len() > 0,
        fits16(x) && fits16(y),
        0 <= w < 0x1_0000 && 0 <= h < 0x1_0000,
    ensures
        areas_after(Seq::empty(), areas) == areas,
        op[0] != 5 && op[0] != 6 ==> areas_after(before + op, areas) == areas_after(before, areas),
        areas_after(before + scissor_record(x, y, w, h), areas) == areas_after(before, areas).push(
            (x as i32, y as i32, (x + w) as i32, (y + h) as i32),
        ),
        areas_after(before, areas).len() > 0 ==> areas_after(before + seq![6u32], areas)
            == areas_after(before, areas).drop_last(),
{
    law_packed_words_unpack(x, y);
    law_packed_words_unpack(w, h);
    lemma_areas_join(before, op, areas);
    lemma_areas_join(before, scissor_record(x, y, w, h), areas);
    lemma_areas_join(before, seq![6u32], areas);
    let open = areas_after(before, areas);
    lemma_areas_one(op, open);
    lemma_areas_one(scissor_record(x, y, w, h), open);
    lemma_areas_one(seq![6u32], open);
    reveal(decode_op);
}

proof fn lemma_areas_one(op: Seq<u32>, areas: Seq<Area>)
    requires
        first_len(op) == op.len(),
        op.len() > 0,
    ensures
        areas_after(op, areas) == decode_op(
            op,
            0,
            areas,
            Seq::empty(),
            Seq::empty(),
            false,
        )->0.areas,
{
    let next = decode_op(op, 0, areas, Seq::empty(), Seq::empty(), false)->0.areas;
    assert(op.skip(op.len() as int) =~= Seq::<u32>::empty());
    assert(areas_after(op.skip(op.len() as int), next) == next);
}

proof fn lemma_areas_join(before: Seq<u32>, after: Seq<u32>, areas: Seq<Area>)
    requires
        is_whole(before),
    ensures
        areas_after(before + after, areas) == areas_after(after, areas_after(before, areas)),
    decreases before.len(),
{
    let all = before + after;
    if before.len() == 0 {
        assert(all =~= after);
    } else {
        let len = first_len(before);
        assert(all[0] == before[0]);
        if before.len() > 1 {
            assert(all[1] == before[1]);
        }
        assert(first_len(all) == len);
        assert(all.take(before.len() as int) =~= before);
        lemma_same_areas(all, before, areas, Seq::empty(), Seq::empty(), false);
        assert(all.skip(len) =~= before.skip(len) + after);
        let next = decode_op(before, 0, areas, Seq::empty(), Seq::empty(), false)->0.areas;
        lemma_areas_join(before.skip(len), after, next);
    }
}

/// A composited surface is drawn by others: it leaves no mark.
#[verifier::rlimit(50)]
pub proof fn law_surface_leaves_no_mark(
    before: Seq<u32>,
    surface: u32,
    full: (u32, u32, u32, u32),
    x: int,
    y: int,
    w: int,
    h: int,
    focused: bool,
    after: Seq<u32>,
    areas: Seq<Area>,
    slots: Seq<SlotModel>,
    atlases: Seq<Option<Atlas>>,
    fallback: bool,
)
    requires
        is_whole(before),
    ensures
        drawn(
            before + surface_record(surface, full, x, y, w, h, focused) + after,
            areas,
            slots,
            atlases,
            fallback,
        ) == drawn(before, areas, slots, atlases, fallback) + drawn(
            after,
            areas_after(before, areas),
            slots,
            atlases,
            fallback,
        ),
{
    let op = surface_record(surface, full, x, y, w, h, focused);
    let open = areas_after(before, areas);
    lemma_between(before, op, after, areas, slots, atlases, fallback);
    reveal(decode_op);
    lemma_drawn_op(op, open, slots, atlases, fallback);
    lemma_marks_one(GeStep::Begin);
    let a = drawn(before, areas, slots, atlases, fallback);
    assert(a + Seq::<Mark>::empty() =~= a);
}

/// Operations begin with their numbers and hold their arguments in order.
pub proof fn law_words_of_operations(
    tex: u32,
    x: int,
    y: int,
    w: int,
    h: int,
    uv: (u32, u32, u32, u32),
    color: u32,
    dir: u32,
    on: bool,
)
    requires
        fits16(x) && fits16(y),
        0 <= w < 0x1_0000 && 0 <= h < 0x1_0000,
    ensures
        ({
            let xy = (if x < 0 {
                x + 0x1_0000
            } else {
                x
            }) + 0x1_0000 * (if y < 0 {
                y + 0x1_0000
            } else {
                y
            });
            let wh = w + 0x1_0000 * h;
            &&& rect_record(x, y, w, h, color) =~= seq![1, xy as u32, wh as u32, color]
            &&& grad_record(x, y, w, h, tex, color, dir) =~= seq![
                2,
                xy as u32,
                wh as u32,
                tex,
                color,
                dir,
            ]
            &&& tex_quad_record(tex, x, y, w, h, uv, color) =~= seq![
                4,
                tex,
                xy as u32,
                wh as u32,
                uv.0,
                uv.1,
                uv.2,
                uv.3,
                color,
            ]
            &&& scissor_record(x, y, w, h) =~= seq![5, xy as u32, wh as u32]
            &&& surface_record(tex, uv, x, y, w, h, on) =~= seq![
                10,
                tex,
                uv.0,
                uv.1,
                uv.2,
                uv.3,
                xy as u32,
                wh as u32,
                if on {
                    1u32
                } else {
                    0
                },
            ]
        }),
{
}

/// A list draws nothing from the first operation on that is unknown or cut short.
pub proof fn law_unknown_operations_draw_nothing(
    words: Seq<u32>,
    areas: Seq<Area>,
    slots: Seq<SlotModel>,
    atlases: Seq<Option<Atlas>>,
    fallback: bool,
)
    requires
        first_len(words) == 0,
    ensures
        drawn(words, areas, slots, atlases, fallback) == Seq::<Mark>::empty(),
{
    assert(decode_op(words, 0, areas, slots, atlases, fallback) is None) by {
        reveal(decode_op);
    }
    assert(decode_from(words, 0, areas, slots, atlases, fallback) =~= Seq::<GeStep>::empty());
}

} // verus!
