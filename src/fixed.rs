//! Fixed-point numbers: an `i64` raw value `v` stands for the real `v / ONE`.
use vstd::prelude::*;

verus! {

/// The raw value of 1.0: there are 56 fractional bits.
pub const ONE: i64 = 72057594037927936;

/// Orbit coordinates saturate at this raw value (64.0), far beyond the escape radius.
pub const ORBIT_LIMIT: i64 = 4611686018427387904;

/// The squared escape radius, 4.0, at the scale of a product of two raw values.
pub const ESCAPE_NORM: i128 = 20769187434139310514121985316880384;

/// Division rounding toward zero, as integer division does in Rust.
pub open spec fn trunc_div(p: int, d: int) -> int {
    if p >= 0 {
        p / d
    } else {
        -((-p) / d)
    }
}

/// A product of two raw values brought back to the raw scale.
pub open spec fn rescale(p: int) -> int {
    trunc_div(p, ONE as int)
}

/// Saturation of an orbit coordinate to `[-ORBIT_LIMIT, ORBIT_LIMIT]`.
pub open spec fn saturate(v: int) -> int {
    if v > ORBIT_LIMIT {
        ORBIT_LIMIT as int
    } else if v < -ORBIT_LIMIT {
        -ORBIT_LIMIT
    } else {
        v
    }
}

pub open spec fn in_orbit_range(v: int) -> bool {
    -ORBIT_LIMIT <= v <= ORBIT_LIMIT
}

/// One step `z' = z^2 + c` of the iteration, real part.
pub open spec fn step_re(zx: int, zy: int, cx: int) -> int {
    saturate(rescale(zx * zx - zy * zy) + cx)
}

/// One step `z' = z^2 + c` of the iteration, imaginary part.
pub open spec fn step_im(zx: int, zy: int, cy: int) -> int {
    saturate(rescale(2 * (zx * zy)) + cy)
}

/// The orbit has left the disc of radius 2: `|z|^2 > 4`.
pub open spec fn escaped(zx: int, zy: int) -> bool {
    zx * zx + zy * zy > ESCAPE_NORM
}

proof fn lemma_square_bound(a: int, b: int)
    requires
        in_orbit_range(a),
        in_orbit_range(b),
    ensures
        -(ORBIT_LIMIT * ORBIT_LIMIT) <= a * b <= ORBIT_LIMIT * ORBIT_LIMIT,
{
    let l = ORBIT_LIMIT as int;
    assert(-(l * l) <= a * b <= l * l) by (nonlinear_arith)
        requires
            -l <= a <= l,
            -l <= b <= l,
            l > 0,
    ;
}

fn rescale_exec(p: i128) -> (r: i128)
    requires
        p > i128::MIN,
    ensures
        r == rescale(p as int),
{
    let one: i128 = ONE as i128;
    if p >= 0 {
        p / one
    } else {
        -((-p) / one)
    }
}

/// One step of the iteration on raw values.
pub fn orbit_step(zx: i64, zy: i64, cx: i64, cy: i64) -> (r: (i64, i64))
    requires
        in_orbit_range(zx as int),
        in_orbit_range(zy as int),
    ensures
        r.0 == step_re(zx as int, zy as int, cx as int),
        r.1 == step_im(zx as int, zy as int, cy as int),
        in_orbit_range(r.0 as int),
        in_orbit_range(r.1 as int),
{
    proof {
        lemma_square_bound(zx as int, zx as int);
        lemma_square_bound(zy as int, zy as int);
        lemma_square_bound(zx as int, zy as int);
    }
    let x = zx as i128;
    let y = zy as i128;
    let re = rescale_exec(x * x - y * y) + cx as i128;
    let im = rescale_exec(2 * (x * y)) + cy as i128;
    (saturate_exec(re), saturate_exec(im))
}

fn saturate_exec(v: i128) -> (r: i64)
    ensures
        r == saturate(v as int),
{
    if v > ORBIT_LIMIT as i128 {
        ORBIT_LIMIT
    } else if v < -(ORBIT_LIMIT as i128) {
        -ORBIT_LIMIT
    } else {
        v as i64
    }
}

/// Whether the orbit point has escaped.
pub fn is_escaped(zx: i64, zy: i64) -> (r: bool)
    requires
        in_orbit_range(zx as int),
        in_orbit_range(zy as int),
    ensures
        r == escaped(zx as int, zy as int),
{
    proof {
        lemma_square_bound(zx as int, zx as int);
        lemma_square_bound(zy as int, zy as int);
    }
    let x = zx as i128;
    let y = zy as i128;
    x * x + y * y > ESCAPE_NORM
}

} // verus!
