//! Bounds-checked little-endian reads from asset blobs.
use vstd::prelude::*;

verus! {

/// The little-endian 16-bit number at `off`.
pub open spec fn le16(b: Seq<u8>, off: int) -> int {
    b[off] as int + 0x100 * (b[off + 1] as int)
}

/// The little-endian 32-bit number at `off`.
pub open spec fn le32(b: Seq<u8>, off: int) -> int {
    le16(b, off) + 0x1_0000 * le16(b, off + 2)
}

/// Reads a 16-bit number; `None` when it does not lie inside the blob.
pub fn rd_u16(b: &[u8], off: usize) -> (r: Option<u16>)
    ensures
        r is Some <==> off + 2 <= b@.len(),
        r is Some ==> r->0 == le16(b@, off as int),
{
    if b.len() < 2 || off > b.len() - 2 {
        return None;
    }
    Some(b[off] as u16 + 0x100 * (b[off + 1] as u16))
}

/// Reads a 32-bit number; `None` when it does not lie inside the blob.
pub fn rd_u32(b: &[u8], off: usize) -> (r: Option<u32>)
    ensures
        r is Some <==> off + 4 <= b@.len(),
        r is Some ==> r->0 == le32(b@, off as int),
{
    if b.len() < 4 || off > b.len() - 4 {
        return None;
    }
    Some(
        b[off] as u32 + 0x100 * (b[off + 1] as u32) + 0x1_0000 * (b[off + 2] as u32) + 0x100_0000
            * (b[off + 3] as u32),
    )
}

/// The bytes `from..from + len`; `None` when they do not lie inside the blob.
pub fn window(b: &[u8], from: usize, len: usize) -> (r: Option<&[u8]>)
    ensures
        r is Some <==> from + len <= b@.len(),
        r is Some ==> r->0@ == b@.subrange(from as int, from + len),
{
    if b.len() < len || from > b.len() - len {
        return None;
    }
    Some(vstd::slice::slice_subrange(b, from, from + len))
}

/// Copies a slice into a vector.
pub fn to_vec(b: &[u8]) -> (v: Vec<u8>)
    ensures
        v@ == b@,
{
    let mut v: Vec<u8> = Vec::new();
    let mut i: usize = 0;
    while i < b.len()
        invariant
            i <= b@.len(),
            v@ == b@.take(i as int),
        decreases b@.len() - i,
    {
        v.push(b[i]);
        proof {
            assert(b@.take(i + 1) =~= b@.take(i as int).push(b@[i as int]));
        }
        i = i + 1;
    }
    proof {
        assert(b@.take(i as int) =~= b@);
    }
    v
}

} // verus!
