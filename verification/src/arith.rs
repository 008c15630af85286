//! Integer helpers: powers of two, packed coordinates, products in range.
use vstd::prelude::*;

verus! {

/// `n` is a power of two.
pub open spec fn is_pow2(n: int) -> bool
    decreases n,
{
    n == 1 || (n > 1 && n % 2 == 0 && is_pow2(n / 2))
}

/// `p` doubled until it is at least `v`.
pub open spec fn doubled_to(p: int, v: int) -> int
    decreases 2 * v - p,
{
    if p < 1 || p >= v {
        p
    } else {
        doubled_to(2 * p, v)
    }
}

/// The smallest power of two that is at least `v`.
pub open spec fn pow2_ceil(v: int) -> int {
    doubled_to(1, v)
}

/// `pow2_ceil` is a power of two, at least its argument, and no smaller power
/// of two is.
pub proof fn law_pow2_ceil(v: int, smaller: int)
    requires
        is_pow2(smaller),
        smaller < pow2_ceil(v),
    ensures
        is_pow2(pow2_ceil(v)),
        pow2_ceil(v) >= v,
        smaller < v,
{
    lemma_doubled(1, v);
    let p = pow2_ceil(v);
    if p > 1 {
        assert(p == 2 * (p / 2));
        lemma_pow2_gap(smaller, p / 2);
    }
}

/// What doubling a power of two up to `v` gives.
pub proof fn lemma_doubled(p: int, v: int)
    requires
        is_pow2(p),
        p > 1 ==> p / 2 < v,
    ensures
        is_pow2(doubled_to(p, v)),
        doubled_to(p, v) >= v,
        doubled_to(p, v) > 1 ==> doubled_to(p, v) / 2 < v,
        doubled_to(p, v) >= p,
    decreases 2 * v - p,
{
    if p < v {
        assert(is_pow2(2 * p));
        lemma_doubled(2 * p, v);
    }
}

proof fn lemma_pow2_gap(p: int, bound: int)
    requires
        is_pow2(p),
        is_pow2(bound),
        p < 2 * bound,
    ensures
        p <= bound,
    decreases bound,
{
    if bound > 1 && p > 1 {
        lemma_pow2_gap(p / 2, bound / 2);
    }
}

/// The smallest power of two that is at least `v`.
pub fn next_pow2(v: u32) -> (r: u32)
    requires
        v <= 0x8000_0000,
    ensures
        r == pow2_ceil(v as int),
{
    let mut p: u32 = 1;
    while p < v
        invariant
            v <= 0x8000_0000,
            is_pow2(p as int),
            p <= 0x8000_0000,
            doubled_to(p as int, v as int) == pow2_ceil(v as int),
        decreases 2 * v - p,
    {
        proof {
            assert(is_pow2(0x4000_0000)) by {
                reveal_with_fuel(is_pow2, 32);
            }
            lemma_pow2_gap(p as int, 0x4000_0000);
        }
        p = p * 2;
    }
    p
}

/// `v` as a 16-bit two's complement number.
pub open spec fn wrap16(v: int) -> int {
    (v + 0x8000) % 0x1_0000 - 0x8000
}

/// Keeps the low 16 bits of `v` as a signed number.
pub fn to_i16(v: i32) -> (r: i16)
    ensures
        r == wrap16(v as int),
{
    proof {
        assert(v as i16 == ((v + 0x8000) % 0x1_0000) - 0x8000) by (bit_vector);
    }
    v as i16
}

/// A product of two bounded factors is bounded by the product of the bounds.
pub proof fn lemma_mul_bounds(a: int, b: int, x: int, y: int)
    by (nonlinear_arith)
    requires
        0 <= a <= x,
        0 <= b <= y,
    ensures
        0 <= a * b <= x * y,
{
}

/// Row `y` and column `x` of a `w` by `h` grid lie inside its `w * h` cells.
pub proof fn lemma_cell_in_grid(x: int, y: int, w: int, h: int)
    by (nonlinear_arith)
    requires
        0 <= x < w,
        0 <= y < h,
    ensures
        0 <= y * w + x < w * h,
{
}

} // verus!
