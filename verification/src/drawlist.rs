//! The draw list: a flat sequence of words that says all there is to paint.
//!
//! Positions are whole pixels and packed two to a word; fractions stay bit
//! patterns. Text carries its bytes along, so that the words alone decide the
//! picture.
use crate::constants::{
    OP_GLYPH_RUN, OP_GRAD_RECT, OP_RECT, OP_SCISSOR, OP_SCISSOR_POP, OP_SURFACE_QUAD, OP_TEXT_RUN,
    OP_TEX_QUAD, OP_TEX_TRI, OP_TRI,
};
use crate::ge::{h_of, w_of, wh, x_of, xy, y_of};
use vstd::prelude::*;

verus! {

/// The draw list of a frame.
pub struct DrawList {
    pub words: Vec<u32>,
}

impl DrawList {
    /// An empty list.
    pub fn new() -> (d: DrawList)
        ensures
            d.words@.len() == 0,
    {
        DrawList { words: Vec::new() }
    }
}

impl Default for DrawList {
    fn default() -> (d: DrawList)
        ensures
            d.words@.len() == 0,
    {
        DrawList::new()
    }
}

// ---- packing ------------------------------------------------------------------------

/// Two numbers in one word, 16 bits each.
pub open spec fn packed(lo: int, hi: int) -> int {
    lo % 0x1_0000 + 0x1_0000 * (hi % 0x1_0000)
}

fn low16(v: i32) -> (r: u32)
    ensures
        r == v as int % 0x1_0000,
{
    let wide: i64 = v as i64 + 0x8000_0000;
    (wide % 0x1_0000) as u32
}

/// Packs a position.
pub fn xy_word(x: i32, y: i32) -> (w: u32)
    ensures
        w == packed(x as int, y as int),
{
    low16(x) + 0x1_0000 * low16(y)
}

/// Packs a size.
pub fn wh_word(w: i32, h: i32) -> (r: u32)
    ensures
        r == packed(w as int, h as int),
{
    low16(w) + 0x1_0000 * low16(h)
}

/// Positions of 16 bits come back from a packed word, and so do sizes.
pub proof fn law_packed_words_unpack(a: int, b: int)
    ensures
        -0x8000 <= a < 0x8000 && -0x8000 <= b < 0x8000 ==> x_of(packed(a, b) as u32) == a && y_of(
            packed(a, b) as u32,
        ) == b,
        0 <= a < 0x1_0000 && 0 <= b < 0x1_0000 ==> w_of(packed(a, b) as u32) == a && h_of(
            packed(a, b) as u32,
        ) == b,
{
}

// ---- records --------------------------------------------------------------------------

/// A filled rectangle.
pub open spec fn rect_record(x: int, y: int, w: int, h: int, color: u32) -> Seq<u32> {
    seq![OP_RECT, packed(x, y) as u32, packed(w, h) as u32, color]
}

/// A drawing area.
pub open spec fn scissor_record(x: int, y: int, w: int, h: int) -> Seq<u32> {
    seq![OP_SCISSOR, packed(x, y) as u32, packed(w, h) as u32]
}

/// A rectangle from one colour to another.
pub open spec fn grad_record(
    x: int,
    y: int,
    w: int,
    h: int,
    from: u32,
    to: u32,
    dir: u32,
) -> Seq<u32> {
    seq![OP_GRAD_RECT, packed(x, y) as u32, packed(w, h) as u32, from, to, dir]
}

/// A textured rectangle.
pub open spec fn tex_quad_record(
    tex: u32,
    x: int,
    y: int,
    w: int,
    h: int,
    uv: (u32, u32, u32, u32),
    color: u32,
) -> Seq<u32> {
    seq![
        OP_TEX_QUAD,
        tex,
        packed(x, y) as u32,
        packed(w, h) as u32,
        uv.0,
        uv.1,
        uv.2,
        uv.3,
        color,
    ]
}

/// A triangle: three corners and their colours.
pub open spec fn tri_record(
    p: ((i32, i32), (i32, i32), (i32, i32)),
    c: (u32, u32, u32),
) -> Seq<u32> {
    seq![
        OP_TRI,
        packed(p.0.0 as int, p.0.1 as int) as u32,
        packed(p.1.0 as int, p.1.1 as int) as u32,
        packed(p.2.0 as int, p.2.1 as int) as u32,
        c.0,
        c.1,
        c.2,
    ]
}

/// A textured triangle: three corners of position and texture position.
pub open spec fn tex_tri_record(
    tex: u32,
    a: (i32, i32, u32, u32),
    b: (i32, i32, u32, u32),
    c: (i32, i32, u32, u32),
    modulate: u32,
) -> Seq<u32> {
    seq![
        OP_TEX_TRI,
        tex,
        packed(a.0 as int, a.1 as int) as u32,
        a.2,
        a.3,
        packed(b.0 as int, b.1 as int) as u32,
        b.2,
        b.3,
        packed(c.0 as int, c.1 as int) as u32,
        c.2,
        c.3,
        modulate,
    ]
}

/// A composited surface.
pub open spec fn surface_record(
    surface: u32,
    full: (u32, u32, u32, u32),
    x: int,
    y: int,
    w: int,
    h: int,
    focused: bool,
) -> Seq<u32> {
    seq![
        OP_SURFACE_QUAD,
        surface,
        full.0,
        full.1,
        full.2,
        full.3,
        packed(x, y) as u32,
        packed(w, h) as u32,
        (if focused {
            1u32
        } else {
            0
        }),
    ]
}

/// Bytes `4 * k` to `4 * k + 3` as a little-endian word, zero past the end.
pub open spec fn byte_word(bytes: Seq<u8>, k: int) -> u32 {
    (byte_or_zero(bytes, 4 * k) + 0x100 * byte_or_zero(bytes, 4 * k + 1) + 0x1_0000 * byte_or_zero(
        bytes,
        4 * k + 2,
    ) + 0x100_0000 * byte_or_zero(bytes, 4 * k + 3)) as u32
}

pub open spec fn byte_or_zero(bytes: Seq<u8>, i: int) -> int {
    if 0 <= i < bytes.len() {
        bytes[i] as int
    } else {
        0
    }
}

/// Words that `n` bytes take.
pub open spec fn words_for(n: int) -> int {
    (n + 3) / 4
}

/// Bytes as words.
pub open spec fn byte_words(bytes: Seq<u8>) -> Seq<u32> {
    Seq::new(words_for(bytes.len() as int) as nat, |k: int| byte_word(bytes, k))
}

/// Byte `i` of a sequence of words.
pub open spec fn word_byte(words: Seq<u32>, i: int) -> int {
    let w = words[i / 4] as int;
    if i % 4 == 0 {
        w % 0x100
    } else if i % 4 == 1 {
        w / 0x100 % 0x100
    } else if i % 4 == 2 {
        w / 0x1_0000 % 0x100
    } else {
        w / 0x100_0000
    }
}

/// The bytes of a text come back from its words.
pub proof fn law_text_bytes_read_back(bytes: Seq<u8>, i: int)
    requires
        0 <= i < bytes.len(),
    ensures
        word_byte(byte_words(bytes), i) == bytes[i],
{
    let k = i / 4;
    let (a, b, c, d) = (
        byte_or_zero(bytes, 4 * k),
        byte_or_zero(bytes, 4 * k + 1),
        byte_or_zero(bytes, 4 * k + 2),
        byte_or_zero(bytes, 4 * k + 3),
    );
    assert(0 <= k < words_for(bytes.len() as int));
    let w = a + 0x100 * b + 0x1_0000 * c + 0x100_0000 * d;
    assert(byte_words(bytes)[k] as int == w);
    assert(w % 0x100 == a);
    assert(w / 0x100 == b + 0x100 * c + 0x1_0000 * d);
    assert(w / 0x1_0000 == c + 0x100 * d);
    assert(w / 0x100_0000 == d);
}

/// A text with its place and looks, in the words of its record.
pub struct TextHead {
    pub slot: u8,
    pub align: u8,
    /// Bit patterns of the origin, the box width and the line height.
    pub x: u32,
    pub y: u32,
    pub box_w: u32,
    pub line_height: u32,
    pub color: u32,
}

/// The record of a text.
pub open spec fn text_record(head: TextHead, bytes: Seq<u8>) -> Seq<u32> {
    seq![
        OP_TEXT_RUN,
        (head.slot as int + 0x100 * (head.align as int)) as u32,
        head.x,
        head.y,
        head.box_w,
        head.line_height,
        head.color,
        bytes.len() as u32,
    ] + byte_words(bytes)
}

/// A rectangle of whole pixels: left, top, right, bottom.
#[derive(Clone, Copy)]
pub struct Bounds {
    pub x0: i32,
    pub y0: i32,
    pub x1: i32,
    pub y1: i32,
}

/// One glyph: where its cell starts and which it is.
#[derive(Clone, Copy)]
pub struct GlyphPos {
    pub x: i32,
    pub y: i32,
    pub gid: u16,
}

/// A glyph is drawn: its cell starts on the screen and touches the clip.
pub open spec fn glyph_shows(
    g: GlyphPos,
    cell_w: int,
    cell_h: int,
    screen_w: int,
    screen_h: int,
    clip: Bounds,
) -> bool {
    &&& 0 <= g.x <= screen_w
    &&& 0 <= g.y <= screen_h
    &&& g.x + cell_w > clip.x0
    &&& g.x < clip.x1
    &&& g.y + cell_h > clip.y0
    &&& g.y < clip.y1
}

/// The words of the glyphs that are drawn, of the first `n`, up to the most
/// that one record can count.
pub open spec fn glyph_words(
    glyphs: Seq<GlyphPos>,
    n: int,
    cell_w: int,
    cell_h: int,
    screen_w: int,
    screen_h: int,
    clip: Bounds,
) -> Seq<u32>
    decreases n,
{
    if n <= 0 {
        Seq::empty()
    } else {
        let before = glyph_words(glyphs, n - 1, cell_w, cell_h, screen_w, screen_h, clip);
        let g = glyphs[n - 1];
        if glyph_shows(g, cell_w, cell_h, screen_w, screen_h, clip) && before.len() < 2 * 0xffff {
            before + seq![packed(g.x as int, g.y as int) as u32, g.gid as u32]
        } else {
            before
        }
    }
}

/// The record of a glyph run whose glyph words are `body`; nothing at all
/// where no glyph is drawn.
pub open spec fn glyph_record(slot: u8, color: u32, body: Seq<u32>) -> Seq<u32> {
    if body.len() == 0 {
        Seq::empty()
    } else {
        seq![
            OP_GLYPH_RUN,
            (slot as int + 0x1_0000 * (body.len() as int / 2)) as u32,
            color,
        ] + body
    }
}

impl DrawList {
    /// Appends a filled rectangle.
    pub fn push_rect(&mut self, x: i32, y: i32, w: i32, h: i32, color: u32)
        ensures
            final(self).words@ == old(self).words@ + rect_record(
                x as int,
                y as int,
                w as int,
                h as int,
                color,
            ),
    {
        self.words.push(OP_RECT);
        self.words.push(xy_word(x, y));
        self.words.push(wh_word(w, h));
        self.words.push(color);
        proof {
            assert(self.words@ =~= old(self).words@ + rect_record(
                x as int,
                y as int,
                w as int,
                h as int,
                color,
            ));
        }
    }

    /// Appends a gradient rectangle.
    pub fn push_grad_rect(
        &mut self,
        x: i32,
        y: i32,
        w: i32,
        h: i32,
        from: u32,
        to: u32,
        dir: u32,
    )
        ensures
            final(self).words@ == old(self).words@ + grad_record(x as int, y as int, w as int, h as int, from, to, dir),
    {
        self.words.push(OP_GRAD_RECT);
        self.words.push(xy_word(x, y));
        self.words.push(wh_word(w, h));
        self.words.push(from);
        self.words.push(to);
        self.words.push(dir);
        proof {
            assert(self.words@ =~= old(self).words@ + grad_record(x as int, y as int, w as int, h as int, from, to, dir));
        }
    }

    /// Appends a textured rectangle; `uv` are the bit patterns of both texture
    /// corners.
    pub fn push_tex_quad(
        &mut self,
        tex: u32,
        x: i32,
        y: i32,
        w: i32,
        h: i32,
        uv: (u32, u32, u32, u32),
        color: u32,
    )
        ensures
            final(self).words@ == old(self).words@ + tex_quad_record(
                tex,
                x as int,
                y as int,
                w as int,
                h as int,
                uv,
                color,
            ),
    {
        self.words.push(OP_TEX_QUAD);
        self.words.push(tex);
        self.words.push(xy_word(x, y));
        self.words.push(wh_word(w, h));
        self.words.push(uv.0);
        self.words.push(uv.1);
        self.words.push(uv.2);
        self.words.push(uv.3);
        self.words.push(color);
        proof {
            assert(self.words@ =~= old(self).words@ + tex_quad_record(
                tex,
                x as int,
                y as int,
                w as int,
                h as int,
                uv,
                color,
            ));
        }
    }

    /// Appends a triangle.
    pub fn push_tri(&mut self, p: ((i32, i32), (i32, i32), (i32, i32)), c: (u32, u32, u32))
        ensures
            final(self).words@ == old(self).words@ + tri_record(p, c),
    {
        let (a, b, d) = p;
        self.words.push(OP_TRI);
        self.words.push(xy_word(a.0, a.1));
        self.words.push(xy_word(b.0, b.1));
        self.words.push(xy_word(d.0, d.1));
        self.words.push(c.0);
        self.words.push(c.1);
        self.words.push(c.2);
        proof {
            assert(self.words@ =~= old(self).words@ + tri_record(p, c));
        }
    }

    /// Appends a drawing area, inside which to paint until it is popped.
    pub fn push_scissor(&mut self, x: i32, y: i32, w: i32, h: i32)
        ensures
            final(self).words@ == old(self).words@ + scissor_record(
                x as int,
                y as int,
                w as int,
                h as int,
            ),
    {
        self.words.push(OP_SCISSOR);
        self.words.push(xy_word(x, y));
        self.words.push(wh_word(w, h));
        proof {
            assert(self.words@ =~= old(self).words@ + scissor_record(
                x as int,
                y as int,
                w as int,
                h as int,
            ));
        }
    }

    /// Ends the drawing area.
    pub fn push_scissor_pop(&mut self)
        ensures
            final(self).words@ == old(self).words@ + seq![OP_SCISSOR_POP],
    {
        self.words.push(OP_SCISSOR_POP);
        proof {
            assert(self.words@ =~= old(self).words@ + seq![OP_SCISSOR_POP]);
        }
    }

    /// Appends a composited surface: bit patterns of its full bounds, and the
    /// part of them that is visible.
    pub fn push_surface(
        &mut self,
        surface: u32,
        full: (u32, u32, u32, u32),
        x: i32,
        y: i32,
        w: i32,
        h: i32,
        focused: bool,
    )
        ensures
            final(self).words@ == old(self).words@ + surface_record(
                surface,
                full,
                x as int,
                y as int,
                w as int,
                h as int,
                focused,
            ),
    {
        let flag: u32 = if focused {
            1
        } else {
            0
        };
        self.words.push(OP_SURFACE_QUAD);
        self.words.push(surface);
        self.words.push(full.0);
        self.words.push(full.1);
        self.words.push(full.2);
        self.words.push(full.3);
        self.words.push(xy_word(x, y));
        self.words.push(wh_word(w, h));
        self.words.push(flag);
        proof {
            assert(self.words@ =~= old(self).words@ + surface_record(
                surface,
                full,
                x as int,
                y as int,
                w as int,
                h as int,
                focused,
            ));
        }
    }

    /// Appends a text. A text that leaves the clip is put inside a drawing
    /// area of its own: `clip` is then its position and size.
    pub fn push_text_run(
        &mut self,
        head: TextHead,
        bytes: &[u8],
        clip: Option<(i32, i32, i32, i32)>,
    )
        requires
            bytes@.len() <= u32::MAX,
        ensures
            final(self).words@ == old(self).words@ + (match clip {
                Some((x, y, w, h)) => scissor_record(x as int, y as int, w as int, h as int)
                    + text_record(head, bytes@) + seq![OP_SCISSOR_POP],
                None => text_record(head, bytes@),
            }),
    {
        match clip {
            Some((x, y, w, h)) => self.push_scissor(x, y, w, h),
            None => {},
        }
        let ghost start = self.words@;
        self.words.push(OP_TEXT_RUN);
        self.words.push(head.slot as u32 + 0x100 * (head.align as u32));
        self.words.push(head.x);
        self.words.push(head.y);
        self.words.push(head.box_w);
        self.words.push(head.line_height);
        self.words.push(head.color);
        self.words.push(bytes.len() as u32);
        let ghost with_head = self.words@;
        let n: usize = bytes.len();
        let count: usize = if n % 4 == 0 {
            n / 4
        } else {
            n / 4 + 1
        };
        let mut k: usize = 0;
        while k < count
            invariant
                n == bytes@.len(),
                k <= count,
                count == words_for(n as int),
                self.words@ == with_head + byte_words(bytes@).take(k as int),
            decreases count - k,
        {
            let i: usize = 4 * k;
            let a: u32 = bytes[i] as u32;
            let b: u32 = if n - i > 1 {
                bytes[i + 1] as u32
            } else {
                0
            };
            let c: u32 = if n - i > 2 {
                bytes[i + 2] as u32
            } else {
                0
            };
            let d: u32 = if n - i > 3 {
                bytes[i + 3] as u32
            } else {
                0
            };
            let word: u32 = a + 0x100 * b + 0x1_0000 * c + 0x100_0000 * d;
            self.words.push(word);
            proof {
                assert(byte_word(bytes@, k as int) == word);
                assert(byte_words(bytes@).take(k + 1) =~= byte_words(bytes@).take(k as int).push(
                    word,
                ));
                assert(self.words@ =~= with_head + byte_words(bytes@).take(k + 1));
            }
            k = k + 1;
        }
        proof {
            assert(byte_words(bytes@).take(k as int) =~= byte_words(bytes@));
        }
        proof {
            assert(self.words@ =~= start + text_record(head, bytes@));
        }
        match clip {
            Some(_) => self.push_scissor_pop(),
            None => {},
        }
        proof {
            match clip {
                Some((x, y, w, h)) => {
                    let area = scissor_record(x as int, y as int, w as int, h as int);
                    assert(self.words@ =~= old(self).words@ + (area + text_record(head, bytes@)
                        + seq![OP_SCISSOR_POP]));
                },
                None => {},
            }
        }
    }
}

impl DrawList {
    /// Appends the glyphs of a text as one record, leaving out those that do
    /// not show; nothing where none does.
    pub fn push_glyph_run(
        &mut self,
        slot: u8,
        color: u32,
        glyphs: &[GlyphPos],
        cell_w: u32,
        cell_h: u32,
        screen_w: i32,
        screen_h: i32,
        clip: Bounds,
    )
        ensures
            final(self).words@ == old(self).words@ + glyph_record(
                slot,
                color,
                glyph_words(
                    glyphs@,
                    glyphs@.len() as int,
                    cell_w as int,
                    cell_h as int,
                    screen_w as int,
                    screen_h as int,
                    clip,
                ),
            ),
    {
        let ghost start = self.words@;
        let ghost (cw, ch) = (cell_w as int, cell_h as int);
        let ghost (sw, sh) = (screen_w as int, screen_h as int);
        let mut body: Vec<u32> = Vec::new();
        let mut n: u32 = 0;
        let mut i: usize = 0;
        while i < glyphs.len()
            invariant
                i <= glyphs@.len(),
                cw == cell_w,
                ch == cell_h,
                sw == screen_w,
                sh == screen_h,
                n <= 0xffff,
                body@.len() == 2 * n,
                body@ == glyph_words(glyphs@, i as int, cw, ch, sw, sh, clip),
            decreases glyphs@.len() - i,
        {
            let g = glyphs[i];
            let ghost before = body@;
            let shows: bool = g.x >= 0 && g.y >= 0 && g.x <= screen_w && g.y <= screen_h
                && g.x as i64 + cell_w as i64 > clip.x0 as i64 && g.x < clip.x1 && g.y as i64
                + cell_h as i64 > clip.y0 as i64 && g.y < clip.y1;
            if shows && n < 0xffff {
                body.push(xy_word(g.x, g.y));
                body.push(g.gid as u32);
                n = n + 1;
                proof {
                    assert(body@ =~= before + seq![
                        packed(g.x as int, g.y as int) as u32,
                        g.gid as u32,
                    ]);
                }
            }
            i = i + 1;
        }
        if n > 0 {
            self.words.push(OP_GLYPH_RUN);
            self.words.push(slot as u32 + 0x1_0000 * n);
            self.words.push(color);
            let ghost words = body@;
            self.words.append(&mut body);
            proof {
                assert(self.words@ =~= start + glyph_record(slot, color, words));
            }
        } else {
            proof {
                assert(self.words@ =~= start + glyph_record(slot, color, body@));
            }
        }
    }

    /// Appends a textured triangle: three corners of position and bit patterns
    /// of the texture position.
    pub fn push_tex_tri(
        &mut self,
        tex: u32,
        a: (i32, i32, u32, u32),
        b: (i32, i32, u32, u32),
        c: (i32, i32, u32, u32),
        modulate: u32,
    )
        ensures
            final(self).words@ == old(self).words@ + tex_tri_record(tex, a, b, c, modulate),
    {
        self.words.push(OP_TEX_TRI);
        self.words.push(tex);
        self.words.push(xy_word(a.0, a.1));
        self.words.push(a.2);
        self.words.push(a.3);
        self.words.push(xy_word(b.0, b.1));
        self.words.push(b.2);
        self.words.push(b.3);
        self.words.push(xy_word(c.0, c.1));
        self.words.push(c.2);
        self.words.push(c.3);
        self.words.push(modulate);
        proof {
            assert(self.words@ =~= old(self).words@ + tex_tri_record(tex, a, b, c, modulate));
        }
    }
}

/// At most as many glyphs as a record can count are kept, and each of them
/// starts on the screen.
pub proof fn law_glyph_words_on_screen(
    glyphs: Seq<GlyphPos>,
    n: int,
    cell_w: int,
    cell_h: int,
    screen_w: int,
    screen_h: int,
    clip: Bounds,
)
    requires
        0 <= n <= glyphs.len(),
        0 <= screen_w < 0x8000,
        0 <= screen_h < 0x8000,
    ensures
        ({
            let body = glyph_words(glyphs, n, cell_w, cell_h, screen_w, screen_h, clip);
            &&& body.len() % 2 == 0
            &&& body.len() <= 2 * 0xffff
            &&& forall|k: int|
                #![trigger body[2 * k]]
                0 <= k < body.len() / 2 ==> 0 <= x_of(body[2 * k]) <= screen_w && 0 <= y_of(
                    body[2 * k],
                ) <= screen_h
        }),
    decreases n,
{
    if n > 0 {
        law_glyph_words_on_screen(glyphs, n - 1, cell_w, cell_h, screen_w, screen_h, clip);
        let before = glyph_words(glyphs, n - 1, cell_w, cell_h, screen_w, screen_h, clip);
        let body = glyph_words(glyphs, n, cell_w, cell_h, screen_w, screen_h, clip);
        let g = glyphs[n - 1];
        law_packed_words_unpack(g.x as int, g.y as int);
        assert forall|k: int| #![trigger body[2 * k]] 0 <= k < body.len() / 2 implies 0 <= x_of(
            body[2 * k],
        ) <= screen_w && 0 <= y_of(body[2 * k]) <= screen_h by {
            if 2 * k < before.len() {
                assert(body[2 * k] == before[2 * k]);
            }
        }
    }
}

// ---- walking a list -------------------------------------------------------------------

/// The length of the operation at `i`; `None` for an unknown one and for one
/// whose length is cut off.
pub open spec fn op_len(words: Seq<u32>, i: int) -> Option<int> {
    let op = words[i];
    if op == OP_RECT {
        Some(4)
    } else if op == OP_GRAD_RECT {
        Some(6)
    } else if op == OP_GLYPH_RUN {
        if i + 1 < words.len() {
            Some(3 + 2 * (words[i + 1] as int / 0x1_0000))
        } else {
            None
        }
    } else if op == OP_TEX_QUAD {
        Some(9)
    } else if op == OP_SCISSOR {
        Some(3)
    } else if op == OP_SCISSOR_POP {
        Some(1)
    } else if op == OP_TRI {
        Some(7)
    } else if op == OP_TEX_TRI {
        Some(12)
    } else if op == OP_TEXT_RUN {
        if i + 7 < words.len() {
            Some(8 + words_for(words[i + 7] as int))
        } else {
            None
        }
    } else if op == OP_SURFACE_QUAD {
        Some(9)
    } else {
        None
    }
}

/// A composited surface that is visible.
#[derive(Clone, Copy, Debug, PartialEq, Eq)]
pub struct CompositorSurfaceFrame {
    pub handle: u32,
    /// Bit patterns of the full bounds: position and size.
    pub full: (u32, u32, u32, u32),
    /// The visible part: position and size.
    pub clip: (i32, i32, i32, i32),
    pub focused: bool,
    /// Position of the operation in the list, by which surfaces and other
    /// operations are ordered.
    pub order: usize,
}

/// The surface operation at `i`.
pub open spec fn surface_at(words: Seq<u32>, i: int) -> CompositorSurfaceFrame {
    CompositorSurfaceFrame {
        handle: words[i + 1],
        full: (words[i + 2], words[i + 3], words[i + 4], words[i + 5]),
        clip: (
            x_of(words[i + 6]) as i32,
            y_of(words[i + 6]) as i32,
            w_of(words[i + 7]) as i32,
            h_of(words[i + 7]) as i32,
        ),
        focused: words[i + 8] % 2 == 1,
        order: i as usize,
    }
}

/// The surfaces of the operations from `i` on, up to the first one that is
/// unknown or cut short.
pub open spec fn surfaces_from(words: Seq<u32>, i: int) -> Seq<CompositorSurfaceFrame>
    decreases words.len() - i,
{
    if i < 0 || i >= words.len() {
        Seq::empty()
    } else {
        match op_len(words, i) {
            None => Seq::empty(),
            Some(len) => if len < 1 || i + len > words.len() {
                Seq::empty()
            } else if words[i] == OP_SURFACE_QUAD {
                seq![surface_at(words, i)] + surfaces_from(words, i + len)
            } else {
                surfaces_from(words, i + len)
            },
        }
    }
}

/// The length of the operation at `i`, if all of it is there.
fn whole_op_len(words: &[u32], i: usize) -> (r: Option<usize>)
    requires
        i < words@.len(),
    ensures
        r is Some <==> op_len(words@, i as int) is Some && i + op_len(words@, i as int)->0
            <= words@.len(),
        r is Some ==> r->0 == op_len(words@, i as int)->0 && r->0 >= 1,
{
    let op: u32 = words[i];
    let left: usize = words.len() - i;
    let len: u64 = if op == OP_RECT {
        4
    } else if op == OP_GRAD_RECT {
        6
    } else if op == OP_GLYPH_RUN {
        if left < 2 {
            return None;
        }
        3 + 2 * ((words[i + 1] / 0x1_0000) as u64)
    } else if op == OP_TEX_QUAD {
        9
    } else if op == OP_SCISSOR {
        3
    } else if op == OP_SCISSOR_POP {
        1
    } else if op == OP_TRI {
        7
    } else if op == OP_TEX_TRI {
        12
    } else if op == OP_TEXT_RUN {
        if left < 8 {
            return None;
        }
        8 + (words[i + 7] as u64 + 3) / 4
    } else if op == OP_SURFACE_QUAD {
        9
    } else {
        return None;
    };
    if len > left as u64 {
        None
    } else {
        Some(len as usize)
    }
}

/// The visible surfaces of a draw list, in painting order.
pub fn compositor_surface_frames(words: &[u32]) -> (frames: Vec<CompositorSurfaceFrame>)
    ensures
        frames@ == surfaces_from(words@, 0),
{
    let mut frames: Vec<CompositorSurfaceFrame> = Vec::new();
    let ghost all = surfaces_from(words@, 0);
    let mut i: usize = 0;
    let mut more: bool = true;
    proof {
        assert(frames@ + all =~= all);
    }
    while more && i < words.len()
        invariant
            i <= words@.len(),
            all == surfaces_from(words@, 0),
            more ==> frames@ + surfaces_from(words@, i as int) == all,
            !more ==> frames@ == all,
        decreases words@.len() - i + (if more {
            1int
        } else {
            0
        }),
    {
        let ghost before = frames@;
        match whole_op_len(words, i) {
            None => {
                proof {
                    assert(before + Seq::<CompositorSurfaceFrame>::empty() =~= before);
                }
                more = false;
            },
            Some(len) => {
                if words[i] == OP_SURFACE_QUAD {
                    let (x, y) = xy(words[i + 6]);
                    let (w, h) = wh(words[i + 7]);
                    let frame = CompositorSurfaceFrame {
                        handle: words[i + 1],
                        full: (words[i + 2], words[i + 3], words[i + 4], words[i + 5]),
                        clip: (x as i32, y as i32, w, h),
                        focused: words[i + 8] % 2 == 1,
                        order: i,
                    };
                    frames.push(frame);
                    proof {
                        assert(frame == surface_at(words@, i as int));
                        let rest = surfaces_from(words@, i + len);
                        assert(before + (seq![frame] + rest) =~= frames@ + rest);
                    }
                }
                i = i + len;
            },
        }
    }
    proof {
        if more {
            assert(frames@ + Seq::<CompositorSurfaceFrame>::empty() =~= frames@);
        }
    }
    frames
}

/// Surfaces come in painting order: by the position of their operations.
pub proof fn law_surfaces_in_painting_order(words: Seq<u32>, i: int, j: int, k: int)
    requires
        0 <= i,
        words.len() <= usize::MAX,
        0 <= j < k < surfaces_from(words, i).len(),
    ensures
        i <= surfaces_from(words, i)[j].order < surfaces_from(words, i)[k].order < words.len(),
    decreases words.len() - i,
{
    lemma_surface_orders(words, i);
    let len = op_len(words, i)->0;
    if words[i] == OP_SURFACE_QUAD {
        lemma_surface_orders(words, i + len);
        let rest = surfaces_from(words, i + len);
        assert(surfaces_from(words, i)[k] == rest[k - 1]);
        if j > 0 {
            assert(surfaces_from(words, i)[j] == rest[j - 1]);
            law_surfaces_in_painting_order(words, i + len, j - 1, k - 1);
        }
    } else {
        law_surfaces_in_painting_order(words, i + len, j, k);
    }
}

proof fn lemma_surface_orders(words: Seq<u32>, i: int)
    requires
        0 <= i,
        words.len() <= usize::MAX,
    ensures
        forall|j: int|
            #![trigger surfaces_from(words, i)[j]]
            0 <= j < surfaces_from(words, i).len() ==> i <= surfaces_from(words, i)[j].order
                < words.len(),
    decreases words.len() - i,
{
    let all = surfaces_from(words, i);
    if i < words.len() && op_len(words, i) is Some {
        let len = op_len(words, i)->0;
        if len >= 1 && i + len <= words.len() {
            lemma_surface_orders(words, i + len);
            let rest = surfaces_from(words, i + len);
            assert forall|j: int| #![trigger all[j]] 0 <= j < all.len() implies i <= all[j].order
                < words.len() by {
                if words[i] == OP_SURFACE_QUAD {
                    if j > 0 {
                        assert(all[j] == rest[j - 1]);
                    }
                } else {
                    assert(all[j] == rest[j]);
                }
            }
        }
    }
}

/// The length of every operation is the number of its words.
pub proof fn law_operation_lengths(
    x: int,
    y: int,
    w: int,
    h: int,
    a: u32,
    b: u32,
    c: u32,
    uv: (u32, u32, u32, u32),
    p: ((i32, i32), (i32, i32), (i32, i32)),
    v: (i32, i32, u32, u32),
    on: bool,
    slot: u8,
    body: Seq<u32>,
)
    requires
        0 < body.len() <= 2 * 0xffff,
        body.len() % 2 == 0,
    ensures
        op_len(rect_record(x, y, w, h, a), 0) == Some(4int),
        op_len(grad_record(x, y, w, h, a, b, c), 0) == Some(6int),
        op_len(tex_quad_record(a, x, y, w, h, uv, b), 0) == Some(9int),
        op_len(scissor_record(x, y, w, h), 0) == Some(3int),
        op_len(seq![6u32], 0) == Some(1int),
        op_len(tri_record(p, (a, b, c)), 0) == Some(7int),
        op_len(tex_tri_record(a, v, v, v, b), 0) == Some(12int),
        op_len(surface_record(a, uv, x, y, w, h, on), 0) == Some(9int),
        op_len(glyph_record(slot, a, body), 0) == Some(glyph_record(slot, a, body).len() as int),
{
    let op = glyph_record(slot, a, body);
    let n = body.len() as int / 2;
    assert(op[1] == (slot as int + 0x1_0000 * n) as u32);
    assert(op[1] as int / 0x1_0000 == n);
}

} // verus!
