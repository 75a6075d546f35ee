//! The view window and the mapping from pixel indices to sample points.
use vstd::prelude::*;
use vstd::arithmetic::div_mod::{lemma_div_is_ordered, lemma_div_multiples_vanish};
use crate::fixed::{trunc_div, ONE};
use crate::kernel::LANES;

verus! {

/// The rectangle of the complex plane that is mapped onto the pixel grid,
/// given by two opposite corners `(x1, y1)` and `(x2, y2)` in raw fixed-point values.
#[derive(Clone, Copy, Debug, PartialEq, Eq)]
pub struct ViewWindow {
    pub x1: i64,
    pub x2: i64,
    pub y1: i64,
    pub y2: i64,
}

impl ViewWindow {
    pub fn new(x1: i64, x2: i64, y1: i64, y2: i64) -> (r: ViewWindow)
        ensures
            r == (ViewWindow { x1, x2, y1, y2 }),
    {
        ViewWindow { x1, x2, y1, y2 }
    }

    /// The window of the reference renderer: real part in `[-2.0, 0.5]`,
    /// imaginary part in `[-1.25, 1.25]`.
    pub fn reference() -> (r: ViewWindow)
        ensures
            r.x1 == -2 * ONE,
            4 * r.x2 == 2 * ONE,
            4 * r.y1 == -5 * ONE,
            4 * r.y2 == 5 * ONE,
    {
        ViewWindow {
            x1: -144115188075855872,
            x2: 36028797018963968,
            y1: -90071992547409920,
            y2: 90071992547409920,
        }
    }
}

/// The sample coordinate of index `i` out of `n` along an axis from `lo` to `hi`:
/// `lo + (i / n) * (hi - lo)`, the product taken before the division.
pub open spec fn map_axis(i: int, n: int, lo: int, hi: int) -> int {
    lo + trunc_div(i * (hi - lo), n)
}

proof fn lemma_map_axis_between(i: int, n: int, lo: int, hi: int)
    requires
        0 <= i < n,
    ensures
        lo <= hi ==> lo <= map_axis(i, n, lo, hi) <= hi,
        hi < lo ==> hi <= map_axis(i, n, lo, hi) <= lo,
{
    let s = if lo <= hi { hi - lo } else { lo - hi };
    assert(0 <= i * s <= n * s) by (nonlinear_arith)
        requires
            0 <= i < n,
            s >= 0,
    ;
    lemma_div_is_ordered(0, i * s, n);
    lemma_div_is_ordered(i * s, n * s, n);
    lemma_div_multiples_vanish(s, n);
    if lo > hi {
        assert(i * (hi - lo) == -(i * s)) by (nonlinear_arith)
            requires
                s == lo - hi,
        ;
        assert(i * (hi - lo) <= 0) by (nonlinear_arith)
            requires
                s == lo - hi,
                i >= 0,
                s > 0,
        ;
        if i * (hi - lo) == 0 {
            assert(i * s == 0);
        }
    }
}

/// The sample coordinate of pixel index `i` out of `n`.
pub fn map_coordinate(i: u32, n: u32, lo: i64, hi: i64) -> (r: i64)
    requires
        i < n,
    ensures
        r == map_axis(i as int, n as int, lo as int, hi as int),
{
    proof {
        lemma_map_axis_between(i as int, n as int, lo as int, hi as int);
        let span = hi as int - lo as int;
        assert(-0x1_0000_0000_0000_0000_0000_0000 <= i * span <= 0x1_0000_0000_0000_0000_0000_0000)
            by (nonlinear_arith)
            requires
                0 <= i < 0x1_0000_0000,
                -0x1_0000_0000_0000_0000 <= span <= 0x1_0000_0000_0000_0000,
        ;
    }
    let p: i128 = (i as i128) * ((hi as i128) - (lo as i128));
    let d: i128 = n as i128;
    let q: i128 = if p >= 0 {
        p / d
    } else {
        -((-p) / d)
    };
    (lo as i128 + q) as i64
}

/// The sample coordinates of the `LANES` consecutive pixel indices from `first` on.
pub fn map_lanes(first: u32, n: u32, lo: i64, hi: i64) -> (r: [i64; LANES])
    requires
        first + LANES <= n,
    ensures
        forall|k: int|
            0 <= k < LANES ==> #[trigger] r@[k] == map_axis(first + k, n as int, lo as int, hi as int),
{
    let mut r: [i64; LANES] = [0; LANES];
    let mut k: usize = 0;
    while k < LANES
        invariant
            first + LANES <= n,
            0 <= k <= LANES,
            forall|j: int|
                0 <= j < k ==> #[trigger] r@[j] == map_axis(first + j, n as int, lo as int, hi as int),
        decreases LANES - k,
    {
        r[k] = map_coordinate(first + k as u32, n, lo, hi);
        k = k + 1;
    }
    r
}

} // verus!
