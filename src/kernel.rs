//! The escape-time kernels: one point at a time, and a batch of lanes in lockstep.
use vstd::prelude::*;
use crate::fixed::{
    escaped, in_orbit_range, is_escaped, orbit_step, saturate, step_im, step_re, ESCAPE_NORM,
    ORBIT_LIMIT,
};

verus! {

/// The iteration budget of the reference renderer.
pub const MAX_ITERATIONS: u32 = 1023;

/// The number of lanes of a batch.
pub const LANES: usize = 16;

/// The orbit point `z_n` of `c`, starting from `z_0 = 0`.
pub open spec fn orbit(cx: int, cy: int, n: nat) -> (int, int)
    decreases n,
{
    if n == 0 {
        (0, 0)
    } else {
        let z = orbit(cx, cy, (n - 1) as nat);
        (step_re(z.0, z.1, cx), step_im(z.0, z.1, cy))
    }
}

/// The number of steps completed before the orbit escapes, with `budget` steps
/// available: the step that escapes is not counted, and a point that never
/// escapes within the budget counts `budget`.
pub open spec fn escape_count(cx: int, cy: int, budget: nat) -> nat
    decreases budget,
{
    if budget == 0 {
        0
    } else {
        let prev = escape_count(cx, cy, (budget - 1) as nat);
        if prev < budget - 1 {
            prev
        } else {
            let z = orbit(cx, cy, budget);
            if escaped(z.0, z.1) {
                (budget - 1) as nat
            } else {
                budget
            }
        }
    }
}

proof fn lemma_orbit_in_range(cx: int, cy: int, n: nat)
    ensures
        in_orbit_range(orbit(cx, cy, n).0),
        in_orbit_range(orbit(cx, cy, n).1),
    decreases n,
{
    if n > 0 {
        lemma_orbit_in_range(cx, cy, (n - 1) as nat);
    }
}

proof fn lemma_count_at_most_budget(cx: int, cy: int, budget: nat)
    ensures
        escape_count(cx, cy, budget) <= budget,
    decreases budget,
{
    if budget > 0 {
        lemma_count_at_most_budget(cx, cy, (budget - 1) as nat);
    }
}

/// Once a point has escaped within a budget, a larger budget gives the same count.
pub proof fn lemma_escaped_count_stable(cx: int, cy: int, budget: nat, larger: nat)
    requires
        budget <= larger,
        escape_count(cx, cy, budget) < budget,
    ensures
        escape_count(cx, cy, larger) == escape_count(cx, cy, budget),
    decreases larger,
{
    if larger > budget {
        lemma_escaped_count_stable(cx, cy, budget, (larger - 1) as nat);
    }
}

/// A point outside the disc of radius 2 escapes on the first step: its count is 0.
pub proof fn lemma_far_point_escapes_at_once(cx: i64, cy: i64, budget: nat)
    requires
        cx * cx + cy * cy > ESCAPE_NORM,
    ensures
        escape_count(cx as int, cy as int, budget) == 0,
{
    if budget > 0 {
        let z = orbit(cx as int, cy as int, 1);
        assert(orbit(cx as int, cy as int, 0) == (0int, 0int));
        assert(z.0 == saturate(cx as int)) by {
            assert(0int * 0int - 0int * 0int == 0);
        }
        assert(z.1 == saturate(cy as int)) by {
            assert(2 * (0int * 0int) == 0);
        }
        lemma_saturated_norm(cx as int, cy as int);
        assert(escape_count(cx as int, cy as int, 1) == 0);
        if budget > 1 {
            lemma_escaped_count_stable(cx as int, cy as int, 1, budget);
        }
    }
}

proof fn lemma_saturated_norm(a: int, b: int)
    requires
        a * a + b * b > ESCAPE_NORM,
    ensures
        escaped(saturate(a), saturate(b)),
{
    let l = ORBIT_LIMIT as int;
    let sa = saturate(a);
    let sb = saturate(b);
    if sa == a && sb == b {
    } else if sa != a {
        assert(sa * sa == l * l) by (nonlinear_arith)
            requires
                sa == l || sa == -l,
        ;
        assert(sb * sb >= 0) by (nonlinear_arith);
    } else {
        assert(sb * sb == l * l) by (nonlinear_arith)
            requires
                sb == l || sb == -l,
        ;
        assert(sa * sa >= 0) by (nonlinear_arith);
    }
}

/// The origin is a fixed point of the iteration: it never escapes.
pub proof fn lemma_origin_never_escapes(budget: nat)
    ensures
        escape_count(0, 0, budget) == budget,
    decreases budget,
{
    if budget > 0 {
        lemma_origin_never_escapes((budget - 1) as nat);
        lemma_origin_orbit(budget);
    }
}

proof fn lemma_origin_orbit(n: nat)
    ensures
        orbit(0, 0, n) == (0int, 0int),
    decreases n,
{
    if n > 0 {
        lemma_origin_orbit((n - 1) as nat);
        assert(0int * 0int - 0int * 0int == 0);
        assert(2 * (0int * 0int) == 0);
    }
}

/// The escape count of one point.
pub fn mandelbrot(cx: i64, cy: i64, max_iterations: u32) -> (r: i64)
    ensures
        r == escape_count(cx as int, cy as int, max_iterations as nat),
{
    let mut zx: i64 = 0;
    let mut zy: i64 = 0;
    let mut cnt: i64 = 0;
    let mut i: u32 = 0;
    while i < max_iterations
        invariant
            i <= max_iterations,
            cnt == i,
            escape_count(cx as int, cy as int, i as nat) == i,
            (zx as int, zy as int) == orbit(cx as int, cy as int, i as nat),
            in_orbit_range(zx as int),
            in_orbit_range(zy as int),
        decreases max_iterations - i,
    {
        let (nx, ny) = orbit_step(zx, zy, cx, cy);
        zx = nx;
        zy = ny;
        if is_escaped(zx, zy) {
            proof {
                assert(escape_count(cx as int, cy as int, (i + 1) as nat) == i);
                lemma_escaped_count_stable(
                    cx as int,
                    cy as int,
                    (i + 1) as nat,
                    max_iterations as nat,
                );
            }
            return cnt;
        }
        cnt = cnt + 1;
        i = i + 1;
    }
    cnt
}

/// The state of one lane after `n` lockstep steps: its orbit point, its count,
/// and its latch, set once the lane has escaped.
pub open spec fn lane_after(zx: i64, zy: i64, cnt: i64, done: bool, cx: i64, cy: i64, n: nat) -> bool {
    let z = orbit(cx as int, cy as int, n);
    let m = escape_count(cx as int, cy as int, n);
    &&& zx == z.0
    &&& zy == z.1
    &&& cnt == m
    &&& done == (m < n)
}

/// The escape counts of a batch of points, one per lane. All lanes advance in
/// lockstep; a lane that has escaped keeps being iterated but stops counting,
/// and the batch stops once every lane has escaped. A lane escapes under the
/// same strict test `|z|^2 > 4` as a single point, so the counts agree with
/// `mandelbrot` on every point, the boundary included.
pub fn mandelbrot_simd(cx: [i64; LANES], cy: [i64; LANES], max_iterations: u32) -> (r: [i64;
    LANES])
    ensures
        forall|k: int|
            0 <= k < LANES ==> #[trigger] r@[k] == escape_count(
                cx@[k] as int,
                cy@[k] as int,
                max_iterations as nat,
            ),
{
    let mut zx: [i64; LANES] = [0; LANES];
    let mut zy: [i64; LANES] = [0; LANES];
    let mut cnt: [i64; LANES] = [0; LANES];
    let mut done: [bool; LANES] = [false; LANES];
    let mut i: u32 = 0;
    assert forall|k: int| 0 <= k < LANES implies #[trigger] lane_after(
        zx@[k],
        zy@[k],
        cnt@[k],
        done@[k],
        cx@[k],
        cy@[k],
        0,
    ) by {}
    while i < max_iterations
        invariant
            i <= max_iterations,
            forall|k: int|
                0 <= k < LANES ==> #[trigger] lane_after(
                    zx@[k],
                    zy@[k],
                    cnt@[k],
                    done@[k],
                    cx@[k],
                    cy@[k],
                    i as nat,
                ),
        decreases max_iterations - i,
    {
        let mut all_done = true;
        let mut k: usize = 0;
        while k < LANES
            invariant
                i < max_iterations,
                0 <= k <= LANES,
                all_done == (forall|j: int| 0 <= j < k ==> #[trigger] done@[j]),
                forall|j: int|
                    k <= j < LANES ==> #[trigger] lane_after(
                        zx@[j],
                        zy@[j],
                        cnt@[j],
                        done@[j],
                        cx@[j],
                        cy@[j],
                        i as nat,
                    ),
                forall|j: int|
                    0 <= j < k ==> #[trigger] lane_after(
                        zx@[j],
                        zy@[j],
                        cnt@[j],
                        done@[j],
                        cx@[j],
                        cy@[j],
                        (i + 1) as nat,
                    ),
            decreases LANES - k,
        {
            let ghost old_zx = zx@;
            let ghost old_zy = zy@;
            let ghost old_cnt = cnt@;
            let ghost old_done = done@;
            proof {
                let k = k as int;
                let (a, b) = (cx@[k] as int, cy@[k] as int);
                assert(lane_after(zx@[k], zy@[k], cnt@[k], done@[k], cx@[k], cy@[k], i as nat));
                lemma_orbit_in_range(a, b, i as nat);
                lemma_count_at_most_budget(a, b, i as nat);
            }
            let (nx, ny) = orbit_step(zx[k], zy[k], cx[k], cy[k]);
            zx[k] = nx;
            zy[k] = ny;
            done[k] = done[k] || is_escaped(nx, ny);
            if !done[k] {
                cnt[k] = cnt[k] + 1;
            }
            all_done = all_done && done[k];
            proof {
                let k = k as int;
                assert(lane_after(zx@[k], zy@[k], cnt@[k], done@[k], cx@[k], cy@[k], (i + 1) as nat));
                assert forall|j: int| 0 <= j < LANES && j != k implies zx@[j] == old_zx[j]
                    && zy@[j] == old_zy[j] && cnt@[j] == old_cnt[j] && done@[j] == old_done[j] by {}
            }
            k = k + 1;
        }
        if all_done {
            proof {
                assert forall|j: int| 0 <= j < LANES implies #[trigger] cnt@[j] == escape_count(
                    cx@[j] as int,
                    cy@[j] as int,
                    max_iterations as nat,
                ) by {
                    assert(done@[j]);
                    let n = (i + 1) as nat;
                    assert(lane_after(zx@[j], zy@[j], cnt@[j], done@[j], cx@[j], cy@[j], n));
                    lemma_escaped_count_stable(
                        cx@[j] as int,
                        cy@[j] as int,
                        (i + 1) as nat,
                        max_iterations as nat,
                    );
                }
            }
            return cnt;
        }
        let ghost prev = i;
        i = i + 1;
        assert forall|j: int| 0 <= j < LANES implies #[trigger] lane_after(
            zx@[j],
            zy@[j],
            cnt@[j],
            done@[j],
            cx@[j],
            cy@[j],
            i as nat,
        ) by {
            let n = (prev + 1) as nat;
            assert(lane_after(zx@[j], zy@[j], cnt@[j], done@[j], cx@[j], cy@[j], n));
            assert(i as nat == (prev + 1) as nat);
        }
    }
    assert forall|j: int| 0 <= j < LANES implies #[trigger] cnt@[j] == escape_count(
        cx@[j] as int,
        cy@[j] as int,
        max_iterations as nat,
    ) by {
        assert(lane_after(zx@[j], zy@[j], cnt@[j], done@[j], cx@[j], cy@[j], i as nat));
    }
    cnt
}

} // verus!
