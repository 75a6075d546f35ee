use mandelbrot::fixed::{is_escaped, orbit_step, ONE, ORBIT_LIMIT};
use mandelbrot::kernel::{mandelbrot, mandelbrot_simd, LANES, MAX_ITERATIONS};

fn raw(v: f64) -> i64 {
    (v * ONE as f64) as i64
}

#[test]
fn step_squares_and_adds() {
    assert_eq!(orbit_step(0, 0, ONE, -ONE), (ONE, -ONE));
    // (1 + i)^2 = 2i
    assert_eq!(orbit_step(ONE, ONE, 0, 0), (0, 2 * ONE));
    // (0.5 - 0.5i)^2 + 0.25 = 0.25 - 0.5i
    assert_eq!(orbit_step(ONE / 2, -ONE / 2, ONE / 4, 0), (ONE / 4, -ONE / 2));
}

#[test]
fn step_saturates_far_orbits() {
    assert_eq!(orbit_step(ORBIT_LIMIT, 0, 0, 0), (ORBIT_LIMIT, 0));
    assert_eq!(orbit_step(0, ORBIT_LIMIT, 0, 0), (-ORBIT_LIMIT, 0));
    assert_eq!(orbit_step(0, 0, i64::MAX, i64::MIN), (ORBIT_LIMIT, -ORBIT_LIMIT));
}

#[test]
fn escape_threshold_is_strict() {
    assert!(!is_escaped(2 * ONE, 0));
    assert!(!is_escaped(0, -2 * ONE));
    assert!(is_escaped(2 * ONE + 1, 0));
    assert!(is_escaped(ORBIT_LIMIT, ORBIT_LIMIT));
    assert!(!is_escaped(ONE, ONE));
}

#[test]
fn far_point_counts_zero() {
    assert_eq!(mandelbrot(3 * ONE, 0, MAX_ITERATIONS), 0);
    assert_eq!(mandelbrot(-2 * ONE, 2 * ONE, MAX_ITERATIONS), 0);
    assert_eq!(mandelbrot(i64::MAX, i64::MIN, MAX_ITERATIONS), 0);
}

#[test]
fn origin_counts_full_budget() {
    assert_eq!(mandelbrot(0, 0, MAX_ITERATIONS), 1023);
    assert_eq!(mandelbrot(0, 0, 0), 0);
    assert_eq!(mandelbrot(0, 0, 7), 7);
}

#[test]
fn exact_counts() {
    // c = 1: z runs 1, 2, 5; the step that reaches 5 escapes.
    assert_eq!(mandelbrot(ONE, 0, MAX_ITERATIONS), 2);
    assert_eq!(mandelbrot(ONE, 0, 1), 1);
    assert_eq!(mandelbrot(ONE, 0, 2), 2);
    // c = -2: z runs -2, 2, 2, ... on the boundary, which does not escape.
    assert_eq!(mandelbrot(-2 * ONE, 0, MAX_ITERATIONS), 1023);
    // c = -1: z alternates between -1 and 0.
    assert_eq!(mandelbrot(-ONE, 0, MAX_ITERATIONS), 1023);
}

#[test]
fn larger_budget_keeps_escaped_count() {
    let points = [(ONE, 0), (raw(0.3), raw(0.6)), (raw(-0.75), raw(0.1)), (raw(0.26), 0)];
    for (cx, cy) in points {
        let short = mandelbrot(cx, cy, 40);
        if short < 40 {
            assert_eq!(mandelbrot(cx, cy, MAX_ITERATIONS), short);
            assert_eq!(mandelbrot(cx, cy, 4000), short);
        }
    }
    assert!(mandelbrot(ONE, 0, 40) < 40);
}

#[test]
fn batch_matches_single_points() {
    let mut seed: u64 = 0x2545_f491_4f6c_dd1d;
    for _ in 0..20 {
        let mut cx = [0i64; LANES];
        let mut cy = [0i64; LANES];
        for k in 0..LANES {
            seed = seed.wrapping_mul(6364136223846793005).wrapping_add(1442695040888963407);
            cx[k] = raw(((seed >> 11) as f64 / (1u64 << 53) as f64) * 3.0 - 2.25);
            seed = seed.wrapping_mul(6364136223846793005).wrapping_add(1442695040888963407);
            cy[k] = raw(((seed >> 11) as f64 / (1u64 << 53) as f64) * 3.0 - 1.5);
        }
        let counts = mandelbrot_simd(cx, cy, MAX_ITERATIONS);
        for k in 0..LANES {
            assert_eq!(counts[k], mandelbrot(cx[k], cy[k], MAX_ITERATIONS));
        }
    }
}

#[test]
fn batch_of_known_points() {
    let mut cx = [0i64; LANES];
    let cy = [0i64; LANES];
    cx[1] = ONE;
    cx[2] = 3 * ONE;
    cx[3] = -2 * ONE;
    let counts = mandelbrot_simd(cx, cy, MAX_ITERATIONS);
    assert_eq!(counts[0], 1023);
    assert_eq!(counts[1], 2);
    assert_eq!(counts[2], 0);
    assert_eq!(counts[3], 1023);
}

#[test]
fn batch_stops_when_all_lanes_escaped() {
    let cx = [3 * ONE; LANES];
    let cy = [ONE; LANES];
    assert_eq!(mandelbrot_simd(cx, cy, MAX_ITERATIONS), [0i64; LANES]);
    assert_eq!(mandelbrot_simd([ONE; LANES], [0; LANES], MAX_ITERATIONS), [2i64; LANES]);
}
