//! The tuner's fixed work partition: sample ranges whose order fixes the
//! order of the floating-point reductions, whatever the thread count.
use vstd::prelude::*;

verus! {

/// Number of chunks the samples are split into.
pub const NUM_CHUNKS: usize = 16;

/// Start of chunk `c` of `len` samples: the first `len % 16` chunks hold
/// one sample more than the others.
pub open spec fn chunk_start(len: int, c: int) -> int {
    c * (len / 16) + if c < len % 16 { c } else { len % 16 }
}

/// The 16 contiguous ranges partitioning `0..len`, in order.
pub fn chunk_bounds(len: usize) -> (r: Vec<(usize, usize)>)
    ensures
        r@.len() == 16,
        forall|c: int|
            0 <= c < 16 ==> (#[trigger] r@[c]).0 == chunk_start(len as int, c) && r@[c].1 == chunk_start(
                len as int,
                c + 1,
            ),
        r@[15].1 == len,
{
    let base = len / NUM_CHUNKS;
    let rem = len % NUM_CHUNKS;
    let mut bounds: Vec<(usize, usize)> = Vec::new();
    let mut start: usize = 0;
    let mut c: usize = 0;
    while c < NUM_CHUNKS
        invariant
            c <= 16,
            base == len / 16,
            rem == len % 16,
            bounds@.len() == c,
            start == chunk_start(len as int, c as int),
            forall|k: int|
                0 <= k < c ==> (#[trigger] bounds@[k]).0 == chunk_start(len as int, k) && bounds@[k].1
                    == chunk_start(len as int, k + 1),
        decreases 16 - c,
    {
        assert(chunk_start(len as int, c + 1) <= len) by (nonlinear_arith)
            requires
                c < 16,
                base == len / 16,
                rem == len % 16,
        {
            assert((c + 1) * base <= 16 * base);
        }
        assert((c + 1) * base == c * base + base) by (nonlinear_arith);
        let this = if c < rem {
            base + 1
        } else {
            base
        };
        bounds.push((start, start + this));
        start = start + this;
        c += 1;
    }
    proof {
        assert(chunk_start(len as int, 16) == len) by (nonlinear_arith)
            requires
                len >= 0,
        ;
    }
    bounds
}

} // verus!
