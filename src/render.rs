//! Whole-frame rendering into a row-major buffer of one byte per pixel.
use vstd::prelude::*;
use vstd::arithmetic::div_mod::lemma_fundamental_div_mod_converse;
use crate::kernel::{escape_count, mandelbrot, mandelbrot_simd, LANES};
use crate::window::{map_axis, map_coordinate, map_lanes, ViewWindow};

verus! {

/// Why a frame could not be rendered.
#[derive(Clone, Copy, Debug, PartialEq, Eq)]
pub enum RenderError {
    /// The width is not a multiple of the lane count of the batched renderer.
    InvalidDimension,
}

/// The intensity of pixel `(x, y)`: its escape count modulo 256.
pub open spec fn pixel(win: ViewWindow, width: int, height: int, budget: nat, x: int, y: int) -> u8 {
    let cx = map_axis(x, width, win.x1 as int, win.x2 as int);
    let cy = map_axis(y, height, win.y1 as int, win.y2 as int);
    (escape_count(cx, cy, budget) % 256) as u8
}

/// The whole frame, row-major: index `y * width + x` holds pixel `(x, y)`.
pub open spec fn frame(win: ViewWindow, width: nat, height: nat, budget: nat) -> Seq<u8> {
    Seq::new(
        width * height,
        |i: int| pixel(win, width as int, height as int, budget, i % width as int, i / width as int),
    )
}

proof fn lemma_row_major(width: int, y: int, x: int)
    requires
        0 <= x < width,
    ensures
        (y * width + x) % width == x,
        (y * width + x) / width == y,
{
    lemma_fundamental_div_mod_converse(y * width + x, width, y, x);
}

/// The frame computed one pixel at a time.
pub fn render_mandelbrot(win: ViewWindow, width: u32, height: u32, max_iterations: u32) -> (r: Vec<u8>)
    ensures
        r@.len() == width * height,
        r@ == frame(win, width as nat, height as nat, max_iterations as nat),
{
    let mut buffer: Vec<u8> = Vec::new();
    let mut y: u32 = 0;
    while y < height
        invariant
            y <= height,
            buffer@.len() == y * width,
            forall|i: int|
                0 <= i < buffer@.len() ==> #[trigger] buffer@[i] == pixel(
                    win,
                    width as int,
                    height as int,
                    max_iterations as nat,
                    i % width as int,
                    i / width as int,
                ),
        decreases height - y,
    {
        let cy = map_coordinate(y, height, win.y1, win.y2);
        let mut x: u32 = 0;
        while x < width
            invariant
                y < height,
                x <= width,
                cy == map_axis(y as int, height as int, win.y1 as int, win.y2 as int),
                buffer@.len() == y * width + x,
                forall|i: int|
                    0 <= i < buffer@.len() ==> #[trigger] buffer@[i] == pixel(
                        win,
                        width as int,
                        height as int,
                        max_iterations as nat,
                        i % width as int,
                        i / width as int,
                    ),
            decreases width - x,
        {
            let cx = map_coordinate(x, width, win.x1, win.x2);
            let cnt = mandelbrot(cx, cy, max_iterations);
            proof {
                lemma_row_major(width as int, y as int, x as int);
            }
            buffer.push((cnt % 256) as u8);
            x = x + 1;
        }
        proof {
            assert(y * width + width == (y + 1) * width) by (nonlinear_arith);
        }
        y = y + 1;
    }
    proof {
        assert(y * width == width * height) by (nonlinear_arith)
            requires
                y == height,
        ;
        assert(buffer@ =~= frame(win, width as nat, height as nat, max_iterations as nat));
    }
    buffer
}

/// The frame computed `LANES` pixels at a time. The width must be a multiple of
/// `LANES`; otherwise nothing is computed and `InvalidDimension` is returned.
pub fn render_mandelbrot_simd(win: ViewWindow, width: u32, height: u32, max_iterations: u32) -> (r:
    Result<Vec<u8>, RenderError>)
    ensures
        match r {
            Ok(buffer) => (width as int) % (LANES as int) == 0 && buffer@.len() == width * height
                && buffer@ == frame(
                win,
                width as nat,
                height as nat,
                max_iterations as nat,
            ),
            Err(e) => (width as int) % (LANES as int) != 0 && e == RenderError::InvalidDimension,
        },
{
    let lanes: u32 = LANES as u32;
    if width % lanes != 0 {
        return Err(RenderError::InvalidDimension);
    }
    let groups: u32 = width / lanes;
    let mut buffer: Vec<u8> = Vec::new();
    let mut y: u32 = 0;
    while y < height
        invariant
            y <= height,
            lanes == LANES,
            width % lanes == 0,
            groups == width / lanes,
            buffer@.len() == y * width,
            forall|i: int|
                0 <= i < buffer@.len() ==> #[trigger] buffer@[i] == pixel(
                    win,
                    width as int,
                    height as int,
                    max_iterations as nat,
                    i % width as int,
                    i / width as int,
                ),
        decreases height - y,
    {
        let cy = map_coordinate(y, height, win.y1, win.y2);
        let cys: [i64; LANES] = [cy; LANES];
        let mut g: u32 = 0;
        while g < groups
            invariant
                y < height,
                g <= groups,
                lanes == LANES,
                width % lanes == 0,
                groups == width / lanes,
                cy == map_axis(y as int, height as int, win.y1 as int, win.y2 as int),
                forall|k: int| 0 <= k < LANES ==> #[trigger] cys@[k] == cy,
                buffer@.len() == y * width + g * lanes,
                forall|i: int|
                    0 <= i < buffer@.len() ==> #[trigger] buffer@[i] == pixel(
                        win,
                        width as int,
                        height as int,
                        max_iterations as nat,
                        i % width as int,
                        i / width as int,
                    ),
            decreases groups - g,
        {
            let first: u32 = g * lanes;
            let cxs = map_lanes(first, width, win.x1, win.x2);
            let counts = mandelbrot_simd(cxs, cys, max_iterations);
            let mut k: usize = 0;
            while k < LANES
                invariant
                    y < height,
                    g < groups,
                    lanes == LANES,
                    first == g * lanes,
                    first + LANES <= width,
                    k <= LANES,
                    forall|j: int|
                        0 <= j < LANES ==> #[trigger] counts@[j] == escape_count(
                            map_axis(first + j, width as int, win.x1 as int, win.x2 as int),
                            map_axis(y as int, height as int, win.y1 as int, win.y2 as int),
                            max_iterations as nat,
                        ),
                    buffer@.len() == y * width + first + k,
                    forall|i: int|
                        0 <= i < buffer@.len() ==> #[trigger] buffer@[i] == pixel(
                            win,
                            width as int,
                            height as int,
                            max_iterations as nat,
                            i % width as int,
                            i / width as int,
                        ),
                decreases LANES - k,
            {
                proof {
                    lemma_row_major(width as int, y as int, first + k);
                }
                buffer.push((counts[k] % 256) as u8);
                k = k + 1;
            }
            g = g + 1;
        }
        proof {
            assert(y * width + width == (y + 1) * width) by (nonlinear_arith);
        }
        y = y + 1;
    }
    proof {
        assert(y * width == width * height) by (nonlinear_arith)
            requires
                y == height,
        ;
        assert(buffer@ =~= frame(win, width as nat, height as nat, max_iterations as nat));
    }
    Ok(buffer)
}

} // verus!
