//! Ready-made functions for combining two samples into one.

use vstd::prelude::*;

verus! {

/// The mean of two bytes, rounded down.
pub fn mean_u8(a: &u8, b: &u8) -> (m: u8)
    ensures
        m == (*a + *b) / 2,
{
    ((*a as u16 + *b as u16) / 2) as u8
}

/// The mean of two byte tuples, taken place by place and rounded down.
pub fn mean<const N: usize>(a: &[u8; N], b: &[u8; N]) -> (m: [u8; N])
    ensures
        forall|i: int| 0 <= i < N ==> #[trigger] m@[i] == (a@[i] + b@[i]) / 2,
{
    let mut mean = *a;
    let mut i: usize = 0;
    while i < N
        invariant
            i <= N,
            forall|j: int| 0 <= j < i ==> #[trigger] mean@[j] == (a@[j] + b@[j]) / 2,
        decreases N - i,
    {
        mean[i] = mean_u8(&a[i], &b[i]);
        i += 1;
    }
    mean
}

/// Half of each byte, rounded down, added up.
pub fn downsample_fn(sig_y: &u8, sig_x: &u8) -> (m: u8)
    ensures
        m == *sig_y / 2 + *sig_x / 2,
{
    *sig_y / 2 + *sig_x / 2
}

} // verus!
