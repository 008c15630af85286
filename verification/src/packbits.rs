//! PackBits run-length streams.
//!
//! A stream is a sequence of packets. A header byte `n` below 128 is followed
//! by `n + 1` literal bytes; one above 128 is followed by a single byte that
//! stands for `257 - n` copies of itself; 128 alone is skipped.
use vstd::prelude::*;

verus! {

/// `n` copies of `b`.
pub open spec fn repeated(b: u8, n: nat) -> Seq<u8> {
    Seq::new(n, |i: int| b)
}

/// What the stream from `at` on stands for; `None` when a packet is cut short.
pub open spec fn unpacked(src: Seq<u8>, at: int) -> Option<Seq<u8>>
    decreases src.len() - at,
{
    if at < 0 || at >= src.len() {
        Some(Seq::empty())
    } else if src[at] == 128 {
        unpacked(src, at + 1)
    } else if src[at] < 128 {
        let n = src[at] as int + 1;
        if at + 1 + n > src.len() {
            None
        } else {
            match unpacked(src, at + 1 + n) {
                Some(rest) => Some(src.subrange(at + 1, at + 1 + n) + rest),
                None => None,
            }
        }
    } else {
        if at + 2 > src.len() {
            None
        } else {
            match unpacked(src, at + 2) {
                Some(rest) => Some(repeated(src[at + 1], (257 - src[at]) as nat) + rest),
                None => None,
            }
        }
    }
}

/// The bytes written so far followed by what the rest of the stream stands for.
spec fn followed(done: Seq<u8>, rest: Option<Seq<u8>>) -> Option<Seq<u8>> {
    match rest {
        Some(r) => Some(done + r),
        None => None,
    }
}

/// Decodes `src` when it stands for exactly `len` bytes.
pub fn packbits_decode(src: &[u8], len: usize) -> (r: Option<Vec<u8>>)
    ensures
        r is Some <==> (unpacked(src@, 0) is Some && unpacked(src@, 0)->0.len() == len),
        r is Some ==> r->0@ == unpacked(src@, 0)->0,
{
    let mut out: Vec<u8> = Vec::new();
    let mut at: usize = 0;
    proof {
        assert(followed(out@, unpacked(src@, 0)) == unpacked(src@, 0)) by {
            if unpacked(src@, 0) is Some {
                assert(out@ + unpacked(src@, 0)->0 =~= unpacked(src@, 0)->0);
            }
        }
    }
    while at < src.len()
        invariant
            at <= src@.len(),
            out@.len() <= len,
            followed(out@, unpacked(src@, at as int)) == unpacked(src@, 0),
        decreases src@.len() - at,
    {
        let head: u8 = src[at];
        let ghost rest = unpacked(src@, at as int);
        let ghost start = out@;
        if head == 128 {
            at = at + 1;
        } else if head < 128 {
            let n: usize = head as usize + 1;
            if src.len() - at - 1 < n {
                return None;
            }
            if len - out.len() < n {
                return None;
            }
            let ghost tail = unpacked(src@, at + 1 + n);
            let mut k: usize = 0;
            while k < n
                invariant
                    k <= n,
                    at + 1 + n <= src@.len() <= usize::MAX,
                    out@ == start + src@.subrange(at + 1, at + 1 + k),
                decreases n - k,
            {
                out.push(src[at + 1 + k]);
                proof {
                    assert(src@.subrange(at + 1, at + 1 + k + 1) =~= src@.subrange(
                        at + 1,
                        at + 1 + k,
                    ).push(src@[at + 1 + k]));
                    assert(out@ =~= start + src@.subrange(at + 1, at + 1 + k + 1));
                }
                k = k + 1;
            }
            proof {
                if tail is Some {
                    assert(start + (src@.subrange(at + 1, at + 1 + n) + tail->0) =~= out@
                        + tail->0);
                }
            }
            at = at + 1 + n;
        } else {
            let n: usize = 257 - head as usize;
            if src.len() - at < 2 {
                return None;
            }
            if len - out.len() < n {
                return None;
            }
            let b: u8 = src[at + 1];
            let ghost tail = unpacked(src@, at + 2);
            let mut k: usize = 0;
            while k < n
                invariant
                    k <= n,
                    out@ == start + repeated(b, k as nat),
                decreases n - k,
            {
                out.push(b);
                proof {
                    assert(out@ =~= start + repeated(b, (k + 1) as nat));
                }
                k = k + 1;
            }
            proof {
                if tail is Some {
                    assert(start + (repeated(b, n as nat) + tail->0) =~= out@ + tail->0);
                }
            }
            at = at + 2;
        }
    }
    proof {
        assert(unpacked(src@, at as int) == Some(Seq::<u8>::empty()));
        assert(out@ + Seq::<u8>::empty() =~= out@);
    }
    if out.len() == len {
        Some(out)
    } else {
        None
    }
}

} // verus!
