//! Questions about floating point numbers that their bit patterns answer.
//!
//! A pattern is one of IEEE 754 binary32: a sign bit, then eight exponent and
//! 23 fraction bits. Among numbers of one sign, larger patterns are farther
//! from zero; past infinity come the patterns that are no numbers.
use vstd::prelude::*;

verus! {

/// The pattern without its sign.
pub open spec fn magnitude(bits: u32) -> int {
    bits as int % 0x8000_0000
}

/// No number.
pub open spec fn is_nan(bits: u32) -> bool {
    magnitude(bits) > 0x7f80_0000
}

/// Neither infinite nor no number.
pub open spec fn is_finite(bits: u32) -> bool {
    magnitude(bits) < 0x7f80_0000
}

/// Zero of either sign.
pub open spec fn is_zero(bits: u32) -> bool {
    magnitude(bits) == 0
}

/// A number above zero.
pub open spec fn above_zero(bits: u32) -> bool {
    0 < bits <= 0x7f80_0000
}

/// A number below zero.
pub open spec fn below_zero(bits: u32) -> bool {
    0x8000_0000 < bits <= 0xff80_0000
}

/// The place of a pattern in the total order of all patterns: from negative
/// ones far from zero over both zeros to positive ones far from zero.
pub open spec fn total_key(bits: u32) -> int {
    if bits < 0x8000_0000 {
        bits as int
    } else {
        -1 - magnitude(bits)
    }
}

pub fn nan(bits: u32) -> (r: bool)
    ensures
        r == is_nan(bits),
{
    bits % 0x8000_0000 > 0x7f80_0000
}

pub fn finite(bits: u32) -> (r: bool)
    ensures
        r == is_finite(bits),
{
    bits % 0x8000_0000 < 0x7f80_0000
}

pub fn zero(bits: u32) -> (r: bool)
    ensures
        r == is_zero(bits),
{
    bits % 0x8000_0000 == 0
}

pub fn positive(bits: u32) -> (r: bool)
    ensures
        r == above_zero(bits),
{
    bits > 0 && bits <= 0x7f80_0000
}

pub fn negative(bits: u32) -> (r: bool)
    ensures
        r == below_zero(bits),
{
    bits > 0x8000_0000 && bits <= 0xff80_0000
}

/// The place of a pattern in the total order.
pub fn order_key(bits: u32) -> (k: i64)
    ensures
        k == total_key(bits),
{
    if bits < 0x8000_0000 {
        bits as i64
    } else {
        -1 - (bits % 0x8000_0000) as i64
    }
}

/// A number brought between two bounds; what is no number stays.
pub open spec fn clamped(bits: u32, low: u32, high: u32) -> u32 {
    if is_nan(bits) {
        bits
    } else if total_key(bits) < total_key(low) {
        low
    } else if total_key(bits) > total_key(high) {
        high
    } else {
        bits
    }
}

pub fn clamp(bits: u32, low: u32, high: u32) -> (r: u32)
    ensures
        r == clamped(bits, low, high),
{
    if nan(bits) {
        bits
    } else if order_key(bits) < order_key(low) {
        low
    } else if order_key(bits) > order_key(high) {
        high
    } else {
        bits
    }
}

/// A pattern is exactly one of these: a number above zero, a number below
/// zero, zero, or no number.
pub proof fn law_four_sorts(bits: u32)
    ensures
        is_nan(bits) ==> !above_zero(bits) && !below_zero(bits) && !is_zero(bits),
        is_zero(bits) ==> !above_zero(bits) && !below_zero(bits),
        above_zero(bits) ==> !below_zero(bits),
        is_nan(bits) || is_zero(bits) || above_zero(bits) || below_zero(bits),
{
}

/// The total order tells all patterns apart and puts numbers below zero before
/// zero, and zero before numbers above it.
pub proof fn law_total_order(a: u32, b: u32)
    ensures
        total_key(a) == total_key(b) ==> a == b,
        below_zero(a) && is_zero(b) ==> total_key(a) < total_key(b),
        is_zero(a) && above_zero(b) ==> total_key(a) < total_key(b),
{
}

/// What was brought between two bounds lies between them and stays when it is
/// brought there again.
pub proof fn law_clamp(bits: u32, low: u32, high: u32)
    requires
        total_key(low) <= total_key(high),
        !is_nan(low),
        !is_nan(high),
    ensures
        !is_nan(bits) ==> total_key(low) <= total_key(clamped(bits, low, high)) <= total_key(high),
        clamped(clamped(bits, low, high), low, high) == clamped(bits, low, high),
{
}

/// Which patterns are which: zero has no bits but perhaps the sign; infinity has
/// all exponent bits and no fraction; what is past it is no number.
pub proof fn law_bit_patterns(bits: u32)
    ensures
        is_zero(bits) <==> bits == 0 || bits == 0x8000_0000,
        above_zero(bits) <==> 0 < bits <= 0x7f80_0000,
        below_zero(bits) <==> 0x8000_0000 < bits <= 0xff80_0000,
        is_nan(bits) <==> 0x7f80_0000 < bits < 0x8000_0000 || bits > 0xff80_0000,
        is_finite(bits) <==> bits < 0x7f80_0000 || 0x8000_0000 <= bits < 0xff80_0000,
{
}

/// Among numbers above zero larger patterns come later, and among those below
/// zero earlier.
pub proof fn law_numbers_in_order(a: u32, b: u32)
    requires
        a < b,
    ensures
        above_zero(a) && above_zero(b) ==> total_key(a) < total_key(b),
        below_zero(a) && below_zero(b) ==> total_key(b) < total_key(a),
{
}

/// A number outside of two bounds is brought to the one it is nearer to; one
/// between them, and what is no number, stays.
pub proof fn law_clamp_brings_to_the_bounds(bits: u32, low: u32, high: u32)
    requires
        total_key(low) <= total_key(high),
    ensures
        is_nan(bits) ==> clamped(bits, low, high) == bits,
        !is_nan(bits) && total_key(bits) < total_key(low) ==> clamped(bits, low, high) == low,
        !is_nan(bits) && total_key(bits) > total_key(high) ==> clamped(bits, low, high) == high,
        total_key(low) <= total_key(bits) <= total_key(high) ==> clamped(bits, low, high) == bits,
{
}

} // verus!
