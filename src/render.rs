//! The render pass: escape indices for a whole grid, and the mapping from
//! image pixels back to blocks and lanes.
use vstd::prelude::*;
use vstd::arithmetic::div_mod::lemma_fundamental_div_mod_converse;
use crate::fixed::{LANES, SUB};
use crate::grid::{axis_coord, im_coord, re_coord, window_fits, Complex, GridError};
use crate::kernel::{escape_time, mandelbrot};

verus! {

/// Palette parameter of an escape index `r`, in 256ths: `t = (2 r / 256 + 0.5) mod 1`.
pub open spec fn phase_of(r: int) -> int {
    (2 * r + 128) % 256
}

/// Block index of the pixel `(x, y)` in a grid of `y_col` rows of blocks.
pub open spec fn block_of(x: int, y: int, y_col: int) -> int {
    (x / 8) * y_col + y / 8
}

/// Lane of the pixel `(x, y)` within its block.
pub open spec fn lane_of(x: int, y: int) -> int {
    (y % 8) * 8 + x % 8
}

/// Escape indices of every block of `c`, batch for batch.
pub fn escape_grid(c: &Complex) -> (r: Vec<[u8; LANES]>)
    requires
        c.re@.len() == c.im@.len(),
    ensures
        r@.len() == c.re@.len(),
        forall|idx: int, k: int| 0 <= idx < r@.len() && 0 <= k < LANES ==>
            #[trigger] r@[idx][k] == escape_time(c.re@[idx][k] as int, c.im@[idx][k] as int),
{
    let mut r: Vec<[u8; LANES]> = Vec::new();
    let mut idx: usize = 0;
    while idx < c.re.len()
        invariant
            c.re@.len() == c.im@.len(),
            idx <= c.re@.len(),
            r@.len() == idx,
            forall|i: int, k: int| 0 <= i < r@.len() && 0 <= k < LANES ==>
                #[trigger] r@[i][k] == escape_time(c.re@[i][k] as int, c.im@[i][k] as int),
        decreases c.re@.len() - idx,
    {
        let mut batch: [u8; LANES] = [255u8; LANES];
        mandelbrot(&c.re[idx], &c.im[idx], &mut batch);
        r.push(batch);
        idx += 1;
    }
    r
}

/// Samples the window of `x_col` by `y_col` blocks at `(x_low, y_low)` with
/// steps `(x_step, y_step)`, 8 by 8 sub-samples a block, and returns the
/// escape index of each sub-sample, block `(i, j)` at index `i * y_col + j`.
pub fn render(x_col: usize, y_col: usize, x_low: i32, x_step: i32, y_low: i32, y_step: i32) -> (r: Result<Vec<[u8; LANES]>, GridError>)
    ensures
        x_col * y_col > usize::MAX ==> r == Err::<Vec<[u8; LANES]>, GridError>(GridError::LengthOverflow { x_col, y_col }),
        x_col * y_col <= usize::MAX && !window_fits(x_col as int, y_col as int, x_low, x_step, y_low, y_step)
            ==> r == Err::<Vec<[u8; LANES]>, GridError>(GridError::CoordinateOverflow { x_col, y_col }),
        x_col * y_col <= usize::MAX && window_fits(x_col as int, y_col as int, x_low, x_step, y_low, y_step)
            ==> r is Ok,
        r is Ok ==> r->Ok_0@.len() == x_col * y_col,
        r is Ok ==> forall|i: int, j: int, k: int|
            0 <= i < x_col && 0 <= j < y_col && 0 <= k < LANES ==>
            #[trigger] r->Ok_0@[i * y_col + j][k] == escape_time(
                re_coord(x_low, x_step, i, k),
                im_coord(y_low, y_step, j, k),
            ),
{
    let c = match Complex::new(x_col, y_col, x_low, x_step, y_low, y_step) {
        Ok(c) => c,
        Err(e) => return Err(e),
    };
    let r = escape_grid(&c);
    proof {
        assert forall|i: int, j: int, k: int|
            0 <= i < x_col && 0 <= j < y_col && 0 <= k < LANES implies
            #[trigger] r@[i * y_col + j][k] == escape_time(re_coord(x_low, x_step, i, k), im_coord(y_low, y_step, j, k)) by {
            assert(0 <= i * y_col + j < x_col * y_col) by (nonlinear_arith)
                requires 0 <= i < x_col, 0 <= j < y_col;
            assert(c.re@[i * y_col + j][k] == re_coord(x_low, x_step, i, k));
            assert(c.im@[i * y_col + j][k] == im_coord(y_low, y_step, j, k));
        }
    }
    Ok(r)
}

/// Palette parameter, in 256ths, of the escape index `r`:
/// `t = (2 r / 256 + 0.5) mod 1`.
pub fn palette_phase(r: u8) -> (t: u8)
    ensures
        t == phase_of(r as int),
{
    ((2 * r as u32 + 128) % 256) as u8
}

/// Block index and lane of the pixel `(x, y)` of the image, for a grid of
/// `y_col` rows of blocks; `None` when the block index overflows `usize`.
pub fn pixel_lookup(x: usize, y: usize, y_col: usize) -> (r: Option<(usize, usize)>)
    ensures
        r is None <==> block_of(x as int, y as int, y_col as int) > usize::MAX,
        r is Some ==> r->Some_0.0 == block_of(x as int, y as int, y_col as int)
            && r->Some_0.1 == lane_of(x as int, y as int),
{
    let xb = x / SUB;
    let index = match xb.checked_mul(y_col) {
        Some(p) => match p.checked_add(y / SUB) {
            Some(s) => s,
            None => return None,
        },
        None => {
            assert(block_of(x as int, y as int, y_col as int) > usize::MAX) by (nonlinear_arith)
                requires xb * y_col > usize::MAX, y / 8 >= 0,
                    block_of(x as int, y as int, y_col as int) == xb * y_col + y / 8;
            return None;
        },
    };
    Some((index, (y % SUB) * SUB + x % SUB))
}

/// Every pixel of the `8 x_col` by `8 y_col` image maps to a block of the
/// grid and a lane of it, and that lane samples the point whose coordinates
/// are those of sub-sample `x` along the real axis and `y` along the
/// imaginary one: the image and the grid agree on geometry.
pub proof fn lemma_pixel_sample(x: int, y: int, x_col: int, y_col: int, x_low: i32, x_step: i32, y_low: i32, y_step: i32)
    requires
        0 <= x < 8 * x_col,
        0 <= y < 8 * y_col,
    ensures
        0 <= block_of(x, y, y_col) < x_col * y_col,
        block_of(x, y, y_col) == (x / 8) * y_col + y / 8,
        0 <= lane_of(x, y) < LANES,
        re_coord(x_low, x_step, x / 8, lane_of(x, y)) == axis_coord(x_low as int, x_step as int, x),
        im_coord(y_low, y_step, y / 8, lane_of(x, y)) == axis_coord(y_low as int, y_step as int, y),
{
    let xb = x / 8;
    let yb = y / 8;
    assert(0 <= xb * y_col + yb < x_col * y_col) by (nonlinear_arith)
        requires 0 <= xb < x_col, 0 <= yb < y_col;
    lemma_fundamental_div_mod_converse(lane_of(x, y), 8, y % 8, x % 8);
}

/// Palette phases of the whole image, row after row: the image is `8 x_col`
/// pixels wide and `8 y_col` high, and pixel `(x, y)` takes the phase of the
/// escape index that its block and lane hold in `results`.
pub fn image_phases(results: &Vec<[u8; LANES]>, x_col: usize, y_col: usize) -> (r: Vec<u8>)
    requires
        results@.len() == x_col * y_col,
        64 * x_col * y_col <= usize::MAX,
    ensures
        r@.len() == 64 * x_col * y_col,
        forall|x: int, y: int| 0 <= x < 8 * x_col && 0 <= y < 8 * y_col ==>
            #[trigger] r@[y * (8 * x_col) + x] == phase_of(results@[block_of(x, y, y_col as int)][lane_of(x, y)] as int),
{
    if x_col == 0 || y_col == 0 {
        return Vec::new();
    }
    assert(8 * x_col <= usize::MAX && 8 * y_col <= usize::MAX && (8 * y_col) * (8 * x_col) == 64 * x_col * y_col) by (nonlinear_arith)
        requires 64 * x_col * y_col <= usize::MAX, x_col >= 1, y_col >= 1;
    assert(x_col * y_col <= usize::MAX) by (nonlinear_arith)
        requires 64 * x_col * y_col <= usize::MAX, x_col >= 1, y_col >= 1;
    let width: usize = x_col * SUB;
    let height: usize = y_col * SUB;
    let mut r: Vec<u8> = Vec::new();
    let mut y: usize = 0;
    while y < height
        invariant
            results@.len() == x_col * y_col,
            x_col * y_col <= usize::MAX,
            width == 8 * x_col,
            height == 8 * y_col,
            height * width == 64 * x_col * y_col,
            y <= height,
            r@.len() == y * width,
            forall|p: int| 0 <= p < r@.len() ==>
                #[trigger] r@[p] == phase_of(results@[block_of(p % (width as int), p / (width as int), y_col as int)][lane_of(p % (width as int), p / (width as int))] as int),
        decreases height - y,
    {
        let mut x: usize = 0;
        while x < width
            invariant
                results@.len() == x_col * y_col,
                x_col * y_col <= usize::MAX,
                width == 8 * x_col,
                height == 8 * y_col,
                height * width == 64 * x_col * y_col,
                y < height,
                x <= width,
                r@.len() == y * width + x,
                forall|p: int| 0 <= p < r@.len() ==>
                    #[trigger] r@[p] == phase_of(results@[block_of(p % (width as int), p / (width as int), y_col as int)][lane_of(p % (width as int), p / (width as int))] as int),
            decreases width - x,
        {
            proof {
                lemma_pixel_sample(x as int, y as int, x_col as int, y_col as int, 0, 0, 0, 0);
                lemma_fundamental_div_mod_converse(y * width + x, width as int, y as int, x as int);
            }
            let xb: usize = x / SUB;
            let yb: usize = y / SUB;
            assert(xb * y_col + yb < x_col * y_col);
            let index = xb * y_col + yb;
            let lane = (y % SUB) * SUB + x % SUB;
            r.push(palette_phase(results[index][lane]));
            x += 1;
        }
        proof {
            assert((y + 1) * width == y * width + width) by (nonlinear_arith);
            assert(y * width + width <= height * width) by (nonlinear_arith)
                requires y < height;
        }
        y += 1;
    }
    proof {
        assert forall|x: int, y: int| 0 <= x < 8 * x_col && 0 <= y < 8 * y_col implies
            #[trigger] r@[y * (8 * x_col) + x] == phase_of(results@[block_of(x, y, y_col as int)][lane_of(x, y)] as int) by {
            lemma_fundamental_div_mod_converse(y * width + x, width as int, y, x);
            assert(0 <= y * width + x < height * width) by (nonlinear_arith)
                requires 0 <= x < width, 0 <= y < height;
        }
    }
    r
}

} // verus!
