//! Ready-made loss functions on bytes and byte tuples.

use vstd::prelude::*;

verus! {

/// The distance between two bytes.
pub open spec fn gap(y: u8, x: u8) -> int {
    if y >= x {
        y - x
    } else {
        x - y
    }
}

/// The sum of the distances between the first `n` bytes of two tuples.
pub open spec fn gap_sum(y: Seq<u8>, x: Seq<u8>, n: int) -> int
    decreases n,
{
    if n <= 0 {
        0
    } else {
        gap_sum(y, x, n - 1) + gap(y[n - 1], x[n - 1])
    }
}

/// The absolute difference of two bytes.
pub fn dist_u8(y: &u8, x: &u8) -> (d: u32)
    ensures
        d == gap(*y, *x),
{
    if *y >= *x {
        (*y - *x) as u32
    } else {
        (*x - *y) as u32
    }
}

/// The absolute difference of two bytes.
pub fn err_fn(sig_y: &u8, sig_x: &u8) -> (d: u32)
    ensures
        d == gap(*sig_y, *sig_x),
{
    dist_u8(sig_y, sig_x)
}

/// The sum of the absolute differences of two byte tuples, place by place.
pub fn summed_dist_u8<const N: usize>(y: &[u8; N], x: &[u8; N]) -> (accum: u32)
    requires
        N <= 0x0101_0101,
    ensures
        accum == gap_sum(y@, x@, N as int),
{
    let mut accum: u32 = 0;
    let mut i: usize = 0;
    while i < N
        invariant
            i <= N,
            N <= 0x0101_0101,
            accum == gap_sum(y@, x@, i as int),
            accum <= 255 * i,
        decreases N - i,
    {
        accum += dist_u8(&y[i], &x[i]);
        i += 1;
    }
    accum
}

} // verus!
