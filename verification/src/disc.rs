//! Baked discs, from whose quadrants rounded corners are drawn.
use crate::arith::{is_pow2, lemma_doubled, lemma_mul_bounds, next_pow2, pow2_ceil};
use crate::constants::{PSM_8888, TEX_MAX_DIM};
use crate::texture::{
    law_store_then_resolve, resolves, slot_models, tex_alloc, tex_resolve, TableModel, TexModel, TexSlot, Texture,
};
use vstd::prelude::*;

verus! {

// ---- the picture ------------------------------------------------------------------

/// Distance of sample `s` of pixel `x` from a centre at `c`, in eighths of a
/// pixel. Pixels have four samples along each axis, evenly spread.
pub open spec fn eighths(c: int, x: int, s: int) -> int {
    8 * x + 2 * s + 1 - 8 * c
}

/// A sample of pixel `(x, y)` lies in the disc of radius `c` around `(c, c)`.
pub open spec fn sample_in(c: int, x: int, y: int, sx: int, sy: int) -> bool {
    square(eighths(c, x, sx)) + square(eighths(c, y, sy)) <= square(8 * c)
}

pub open spec fn square(v: int) -> int {
    v * v
}

pub open spec fn one_if(b: bool) -> int {
    if b {
        1
    } else {
        0
    }
}

/// Samples of one row of a pixel in the disc.
pub open spec fn row_hits(c: int, x: int, y: int, sy: int) -> int {
    one_if(sample_in(c, x, y, 0, sy)) + one_if(sample_in(c, x, y, 1, sy)) + one_if(
        sample_in(c, x, y, 2, sy),
    ) + one_if(sample_in(c, x, y, 3, sy))
}

/// Samples of a pixel in the disc, of sixteen.
pub open spec fn pixel_hits(c: int, x: int, y: int) -> int {
    row_hits(c, x, y, 0) + row_hits(c, x, y, 1) + row_hits(c, x, y, 2) + row_hits(c, x, y, 3)
}

/// Alpha of pixel `(x, y)`: its coverage, and nothing outside the disc's box.
pub open spec fn disc_alpha(c: int, x: int, y: int) -> int {
    if x < 2 * c && y < 2 * c {
        (pixel_hits(c, x, y) * 255 + 8) / 16
    } else {
        0
    }
}

/// Byte `k` of the picture: white everywhere, with the coverage as alpha.
pub open spec fn disc_byte(c: int, dim: int, k: int) -> u8 {
    if k % 4 == 3 {
        disc_alpha(c, (k / 4) % dim, (k / 4) / dim) as u8
    } else {
        255
    }
}

/// The disc of radius `c` as a texture with edges of `dim`.
pub open spec fn disc_model(c: int, dim: int) -> TexModel {
    TexModel {
        pixels: Seq::new((4 * (dim * dim)) as nat, |k: int| disc_byte(c, dim, k)),
        w: dim as u32,
        h: dim as u32,
        psm: PSM_8888,
        palette: None,
        linear: true,
        revision: 0,
    }
}

/// The picture is complete.
proof fn lemma_disc_complete(c: int, dim: int)
    requires
        1 <= dim <= 512,
    ensures
        disc_model(c, dim).complete(),
{
    assert(0 <= 4 * (dim * dim) == dim * dim * 4) by (nonlinear_arith)
        requires
            1 <= dim,
    ;
}

/// A disc looks the same when mirrored along either axis, so that one picture
/// serves all four corners.
pub proof fn law_disc_is_symmetric(c: int, x: int, y: int)
    requires
        0 <= x < 2 * c,
        0 <= y < 2 * c,
    ensures
        disc_alpha(c, 2 * c - 1 - x, y) == disc_alpha(c, x, y),
        disc_alpha(c, x, 2 * c - 1 - y) == disc_alpha(c, x, y),
        disc_alpha(c, y, x) == disc_alpha(c, x, y),
{
    lemma_row_mirrors(c, x, y, 0);
    lemma_row_mirrors(c, x, y, 1);
    lemma_row_mirrors(c, x, y, 2);
    lemma_row_mirrors(c, x, y, 3);
    lemma_transposed(c, x, y);
}

proof fn lemma_mirrored(c: int, x: int, s: int)
    ensures
        square(eighths(c, 2 * c - 1 - x, s)) == square(eighths(c, x, 3 - s)),
{
    let v = eighths(c, x, 3 - s);
    assert(eighths(c, 2 * c - 1 - x, s) == -v);
    assert((-v) * (-v) == v * v) by (nonlinear_arith);
}

proof fn lemma_row_mirrors(c: int, x: int, y: int, sy: int)
    ensures
        row_hits(c, 2 * c - 1 - x, y, sy) == row_hits(c, x, y, sy),
        row_hits(c, x, 2 * c - 1 - y, sy) == row_hits(c, x, y, 3 - sy),
{
    lemma_mirrored(c, x, 0);
    lemma_mirrored(c, x, 1);
    lemma_mirrored(c, x, 2);
    lemma_mirrored(c, x, 3);
    lemma_mirrored(c, y, sy);
}

proof fn lemma_transposed(c: int, x: int, y: int)
    ensures
        pixel_hits(c, y, x) == pixel_hits(c, x, y),
{
    assert forall|sx: int, sy: int| #[trigger]
        sample_in(c, y, x, sx, sy) == sample_in(c, x, y, sy, sx) by {}
}

proof fn lemma_hits_bounds(c: int, x: int, y: int)
    ensures
        0 <= pixel_hits(c, x, y) <= 16,
        0 <= disc_alpha(c, x, y) <= 255,
{
}

fn sample_hit(c: i32, x: i32, y: i32, sx: i32, sy: i32) -> (r: u32)
    requires
        0 <= c <= 256,
        0 <= x < 512,
        0 <= y < 512,
        0 <= sx < 4,
        0 <= sy < 4,
    ensures
        r == one_if(sample_in(c as int, x as int, y as int, sx as int, sy as int)),
{
    let dx: i32 = 8 * x + 2 * sx + 1 - 8 * c;
    let dy: i32 = 8 * y + 2 * sy + 1 - 8 * c;
    let r8: i32 = 8 * c;
    proof {
        assert(0 <= dx * dx <= 4096 * 4096) by (nonlinear_arith)
            requires
                -4096 <= dx <= 4096,
        ;
        assert(0 <= dy * dy <= 4096 * 4096) by (nonlinear_arith)
            requires
                -4096 <= dy <= 4096,
        ;
        lemma_mul_bounds(r8 as int, r8 as int, 2048, 2048);
    }
    proof {
        assert(square(dx as int) == dx * dx);
        assert(square(dy as int) == dy * dy);
        assert(square(r8 as int) == r8 * r8);
    }
    if dx * dx + dy * dy <= r8 * r8 {
        1
    } else {
        0
    }
}

fn hits_in_row(c: i32, x: i32, y: i32, sy: i32) -> (r: u32)
    requires
        0 <= c <= 256,
        0 <= x < 512,
        0 <= y < 512,
        0 <= sy < 4,
    ensures
        r == row_hits(c as int, x as int, y as int, sy as int),
        r <= 4,
{
    sample_hit(c, x, y, 0, sy) + sample_hit(c, x, y, 1, sy) + sample_hit(c, x, y, 2, sy)
        + sample_hit(c, x, y, 3, sy)
}

/// Bakes the disc of radius `c` onto a texture with edges of `dim`.
fn bake_disc(c: u32, dim: u32) -> (tex: Texture)
    requires
        c <= 256,
        1 <= dim <= 512,
    ensures
        tex@ == disc_model(c as int, dim as int),
{
    proof {
        lemma_mul_bounds(dim as int, dim as int, 512, 512);
    }
    let total: u32 = dim * dim;
    let mut data: Vec<u8> = Vec::new();
    let mut p: u32 = 0;
    while p < total
        invariant
            c <= 256,
            1 <= dim <= 512,
            p <= total,
            total == dim * dim,
            data@ == Seq::new((4 * p) as nat, |k: int| disc_byte(c as int, dim as int, k)),
        decreases total - p,
    {
        let x: u32 = p % dim;
        let y: u32 = p / dim;
        proof {
            assert(y < 512) by (nonlinear_arith)
                requires
                    y == p as int / dim as int,
                    p < dim * dim,
                    1 <= dim <= 512,
            ;
            lemma_hits_bounds(c as int, x as int, y as int);
        }
        let a: u32 = if x < 2 * c && y < 2 * c {
            let (ci, xi, yi) = (c as i32, x as i32, y as i32);
            let hits: u32 = hits_in_row(ci, xi, yi, 0) + hits_in_row(ci, xi, yi, 1) + hits_in_row(
                ci,
                xi,
                yi,
                2,
            ) + hits_in_row(ci, xi, yi, 3);
            (hits * 255 + 8) / 16
        } else {
            0
        };
        data.push(255);
        data.push(255);
        data.push(255);
        data.push(a as u8);
        proof {
            let at = 4 * p as int;
            assert(at / 4 == p && (at + 1) / 4 == p && (at + 2) / 4 == p && (at + 3) / 4 == p);
            assert(disc_byte(c as int, dim as int, at + 3) == a as u8);
            assert(data@ =~= Seq::new(
                (4 * (p + 1)) as nat,
                |k: int| disc_byte(c as int, dim as int, k),
            ));
        }
        p = p + 1;
    }
    Texture {
        data,
        w: dim,
        h: dim,
        psm: PSM_8888,
        palette: None,
        linear: true,
        revision: 0,
    }
}

// ---- the cache --------------------------------------------------------------------

/// Discs baked so far: radius in logical pixels and texture handle. A handle
/// may have been released behind the cache's back; it is then baked anew.
pub struct DiscCache {
    pub entries: Vec<(u32, i32)>,
}

impl DiscCache {
    pub fn new() -> (c: DiscCache)
        ensures
            c.entries@.len() == 0,
    {
        DiscCache { entries: Vec::new() }
    }
}

impl Default for DiscCache {
    fn default() -> (c: DiscCache)
        ensures
            c.entries@.len() == 0,
    {
        DiscCache::new()
    }
}

/// The first entry of this radius.
pub open spec fn entry_of(entries: Seq<(u32, i32)>, r: u32) -> Option<i32>
    decreases entries.len(),
{
    if entries.len() == 0 {
        None
    } else if entries[0].0 == r {
        Some(entries[0].1)
    } else {
        entry_of(entries.drop_first(), r)
    }
}

/// The entries of other radii, in order.
pub open spec fn without(entries: Seq<(u32, i32)>, r: u32) -> Seq<(u32, i32)>
    decreases entries.len(),
{
    if entries.len() == 0 {
        Seq::empty()
    } else if entries.last().0 == r {
        without(entries.drop_last(), r)
    } else {
        without(entries.drop_last(), r).push(entries.last())
    }
}

/// What asking for a disc gives: the handle and the texture edge, the entries
/// and the texture table after it.
pub struct DiscOutcome {
    pub found: Option<(int, int)>,
    pub entries: Seq<(u32, i32)>,
    pub table: TableModel,
}

/// Asking for the disc of radius `r` at a raster density: one that would not
/// fit a texture is refused; one that is there is given out; else it is baked,
/// unless handles have run out.
pub open spec fn disc_outcome(
    entries: Seq<(u32, i32)>,
    table: TableModel,
    r: u32,
    density: u32,
) -> DiscOutcome {
    let c = r * density;
    let dim = pow2_ceil(2 * c);
    let cached = entry_of(entries, r);
    if 2 * c > TEX_MAX_DIM {
        DiscOutcome { found: None, entries, table }
    } else if cached is Some && resolves(table.slots, cached->0 as int) is Some {
        DiscOutcome { found: Some((cached->0 as int, dim)), entries, table }
    } else {
        let kept = without(entries, r);
        let (after, handle) = table.stored(disc_model(c, dim));
        if handle < 0 {
            DiscOutcome { found: None, entries: kept, table: after }
        } else {
            DiscOutcome {
                found: Some((handle, dim)),
                entries: kept.push((r, handle as i32)),
                table: after,
            }
        }
    }
}

fn find_entry(entries: &Vec<(u32, i32)>, r: u32) -> (e: Option<i32>)
    ensures
        e == entry_of(entries@, r),
{
    let mut i: usize = 0;
    proof {
        assert(entries@.skip(0) =~= entries@);
    }
    while i < entries.len()
        invariant
            i <= entries@.len(),
            entry_of(entries@.skip(i as int), r) == entry_of(entries@, r),
        decreases entries@.len() - i,
    {
        proof {
            assert(entries@.skip(i as int).drop_first() =~= entries@.skip(i + 1));
        }
        if entries[i].0 == r {
            return Some(entries[i].1);
        }
        i = i + 1;
    }
    None
}

fn keep_others(entries: &Vec<(u32, i32)>, r: u32) -> (kept: Vec<(u32, i32)>)
    ensures
        kept@ == without(entries@, r),
{
    let mut kept: Vec<(u32, i32)> = Vec::new();
    let mut i: usize = 0;
    proof {
        assert(entries@.take(0) =~= Seq::<(u32, i32)>::empty());
    }
    while i < entries.len()
        invariant
            i <= entries@.len(),
            kept@ == without(entries@.take(i as int), r),
        decreases entries@.len() - i,
    {
        proof {
            assert(entries@.take(i + 1).drop_last() =~= entries@.take(i as int));
        }
        if entries[i].0 != r {
            kept.push(entries[i]);
        }
        i = i + 1;
    }
    proof {
        assert(entries@.take(i as int) =~= entries@);
    }
    kept
}

/// Gets the disc of logical radius `r_px`, baking it if need be: its handle
/// and the edge of its texture.
pub fn disc_texture(
    cache: &mut DiscCache,
    slots: &mut Vec<TexSlot>,
    free: &mut Vec<u32>,
    r_px: u32,
    raster_density: u32,
) -> (r: Option<(u32, u32)>)
    requires
        (TableModel { slots: slot_models(old(slots)@), free: old(free)@ }).wf(),
    ensures
        ({
            let before = TableModel { slots: slot_models(old(slots)@), free: old(free)@ };
            let after = TableModel { slots: slot_models(final(slots)@), free: final(free)@ };
            let out = disc_outcome(old(cache).entries@, before, r_px, raster_density);
            &&& after.wf()
            &&& after == out.table
            &&& final(cache).entries@ == out.entries
            &&& r is Some <==> out.found is Some
            &&& r matches Some((handle, dim)) ==> (handle as int, dim as int) == out.found->0
        }),
{
    let c: u32 = match r_px.checked_mul(raster_density) {
        Some(v) => v,
        None => return None,
    };
    if c > TEX_MAX_DIM / 2 {
        return None;
    }
    let dim: u32 = next_pow2(2 * c);
    proof {
        lemma_dim_bound(2 * c as int);
    }
    match find_entry(&cache.entries, r_px) {
        Some(handle) => {
            if tex_resolve(slots.as_slice(), handle).is_some() {
                return Some((handle as u32, dim));
            }
        },
        None => {},
    }
    cache.entries = keep_others(&cache.entries, r_px);
    let tex = bake_disc(c, dim);
    proof {
        lemma_disc_complete(c as int, dim as int);
    }
    let handle: i32 = tex_alloc(slots, free, tex);
    if handle < 0 {
        return None;
    }
    cache.entries.push((r_px, handle));
    Some((handle as u32, dim))
}

/// Once the entries of a radius are taken out, a new one is found.
proof fn lemma_new_entry_found(entries: Seq<(u32, i32)>, r: u32, handle: i32)
    ensures
        entry_of(without(entries, r), r) is None,
        entry_of(without(entries, r).push((r, handle)), r) == Some(handle),
    decreases entries.len(),
{
    if entries.len() > 0 {
        lemma_new_entry_found(entries.drop_last(), r, handle);
        let kept = without(entries.drop_last(), r);
        if entries.last().0 != r {
            lemma_pushed_entry(kept, entries.last(), r);
        }
    }
    lemma_pushed_entry(without(entries, r), (r, handle), r);
}

/// An entry at the end counts where there is none of its radius before it.
proof fn lemma_pushed_entry(entries: Seq<(u32, i32)>, e: (u32, i32), r: u32)
    ensures
        entry_of(entries.push(e), r) == (if entry_of(entries, r) is None && e.0 == r {
            Some(e.1)
        } else {
            entry_of(entries, r)
        }),
    decreases entries.len(),
{
    if entries.len() > 0 {
        assert(entries.push(e).drop_first() =~= entries.drop_first().push(e));
        lemma_pushed_entry(entries.drop_first(), e, r);
    } else {
        assert(entries.push(e).drop_first() =~= entries);
    }
}

/// A disc that is given out is a live texture, whatever was released before:
/// one whose handle went stale is baked anew.
pub proof fn law_disc_is_live(entries: Seq<(u32, i32)>, table: TableModel, r: u32, density: u32)
    requires
        table.wf(),
        disc_outcome(entries, table, r, density).found is Some,
    ensures
        ({
            let out = disc_outcome(entries, table, r, density);
            let (handle, _dim) = out.found->0;
            &&& resolves(out.table.slots, handle) is Some
            &&& entry_of(out.entries, r) == Some(handle as i32)
        }),
{
    let c = r * density;
    let tex = disc_model(c, pow2_ceil(2 * c));
    law_store_then_resolve(table, tex);
    lemma_new_entry_found(entries, r, table.stored(tex).1 as i32);
}

/// A disc is baked once: who asks again gets the same texture, and nothing
/// changes.
pub proof fn law_disc_is_baked_once(
    entries: Seq<(u32, i32)>,
    table: TableModel,
    r: u32,
    density: u32,
)
    requires
        table.wf(),
        disc_outcome(entries, table, r, density).found is Some,
    ensures
        ({
            let out = disc_outcome(entries, table, r, density);
            disc_outcome(out.entries, out.table, r, density) == out
        }),
{
    law_disc_is_live(entries, table, r, density);
    let c = r * density;
    law_store_then_resolve(table, disc_model(c, pow2_ceil(2 * c)));
}

proof fn lemma_dim_bound(v: int)
    requires
        v <= 512,
    ensures
        1 <= pow2_ceil(v) <= 512,
{
    assert(is_pow2(1));
    lemma_doubled(1, v);
    if pow2_ceil(v) > 512 {
        reveal_with_fuel(is_pow2, 11);
        assert(is_pow2(512));
        crate::arith::law_pow2_ceil(v, 512);
    }
}

/// A disc that is baked is a picture of its radius at the raster density, in a
/// texture that holds it; one whose width would not fit a texture is refused.
pub proof fn law_disc_has_its_radius(entries: Seq<(u32, i32)>, table: TableModel, r: u32, density: u32)
    requires
        table.wf(),
        entry_of(entries, r) is None,
    ensures
        ({
            let out = disc_outcome(entries, table, r, density);
            let c = r * density;
            &&& 2 * c > 512 ==> out.found is None && out.table == table
            &&& out.found matches Some((handle, dim)) ==> {
                &&& 2 * c <= dim
                &&& out.table.live(handle) == Some(disc_model(c, dim))
            }
        }),
{
    let c = r * density;
    assert(0 <= c) by (nonlinear_arith)
        requires
            c == r * density,
    ;
    let dim = pow2_ceil(2 * c);
    law_store_then_resolve(table, disc_model(c, dim));
    lemma_doubled(1, 2 * c);
}

/// A disc that fits a texture is given out as long as handles are left.
pub proof fn law_discs_are_given_out(entries: Seq<(u32, i32)>, table: TableModel, r: u32, density: u32)
    requires
        table.wf(),
        2 * (r * density) <= 512,
        table.slots.len() < 0x10_0000,
    ensures
        disc_outcome(entries, table, r, density).found is Some,
{
    let c = r * density;
    law_store_then_resolve(table, disc_model(c, pow2_ceil(2 * c)));
}

} // verus!
