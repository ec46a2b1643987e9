//! The sampled coordinate grid: one batch of sub-sample coordinates per block.
use vstd::prelude::*;
use vstd::arithmetic::div_mod::{lemma_div_is_ordered, lemma_fundamental_div_mod_converse};
use crate::fixed::{in_i32, LANES, SUB};

verus! {

/// Coordinate along one axis of the sub-sample `m` eighths of a step away
/// from `low`: `low + floor(m * step / 8)`.
pub open spec fn axis_coord(low: int, step: int, m: int) -> int {
    low + (m * step) / 8
}

/// Real part of lane `k` of a block in column `i`: sub-sample column `k % 8`.
pub open spec fn re_coord(x_low: i32, x_step: i32, i: int, k: int) -> int {
    axis_coord(x_low as int, x_step as int, 8 * i + k % 8)
}

/// Imaginary part of lane `k` of a block in row `j`: sub-sample row `k / 8`.
pub open spec fn im_coord(y_low: i32, y_step: i32, j: int, k: int) -> int {
    axis_coord(y_low as int, y_step as int, 8 * j + k / 8)
}

/// Every sub-sample of `n` blocks along one axis has a coordinate in `i32`.
pub open spec fn axis_fits(low: i32, step: i32, n: int) -> bool {
    forall|m: int| 0 <= m < 8 * n ==> #[trigger] in_i32(axis_coord(low as int, step as int, m))
}

/// Every coordinate of an `x_col` by `y_col` grid has a value in `i32`.
pub open spec fn window_fits(x_col: int, y_col: int, x_low: i32, x_step: i32, y_low: i32, y_step: i32) -> bool {
    x_col * y_col == 0 || (axis_fits(x_low, x_step, x_col) && axis_fits(y_low, y_step, y_col))
}

/// Why a grid cannot be built.
#[derive(Debug, Clone, Copy, PartialEq, Eq, Structural)]
pub enum GridError {
    /// `x_col * y_col` does not fit in `usize`.
    LengthOverflow { x_col: usize, y_col: usize },
    /// Some sub-sample coordinate does not fit in the fixed-point range.
    CoordinateOverflow { x_col: usize, y_col: usize },
}

/// Real and imaginary parts of every sample, one batch of `LANES` lanes per
/// block; block `(i, j)` is at index `i * y_col + j`.
pub struct Complex {
    pub re: Vec<[i32; LANES]>,
    pub im: Vec<[i32; LANES]>,
}

impl Complex {
    /// `self` is the grid of `x_col` by `y_col` blocks over the given window.
    pub open spec fn is_grid(&self, x_col: int, y_col: int, x_low: i32, x_step: i32, y_low: i32, y_step: i32) -> bool {
        &&& self.re@.len() == x_col * y_col
        &&& self.im@.len() == x_col * y_col
        &&& forall|i: int, j: int, k: int|
            0 <= i < x_col && 0 <= j < y_col && 0 <= k < LANES ==>
            #[trigger] self.re@[i * y_col + j][k] == re_coord(x_low, x_step, i, k)
        &&& forall|i: int, j: int, k: int|
            0 <= i < x_col && 0 <= j < y_col && 0 <= k < LANES ==>
            #[trigger] self.im@[i * y_col + j][k] == im_coord(y_low, y_step, j, k)
    }

    /// Builds the grid of `x_col` by `y_col` blocks whose block `(0, 0)`
    /// starts at `(x_low, y_low)`, one block being `x_step` wide and `y_step`
    /// high, each split into 8 by 8 sub-samples.
    pub fn new(x_col: usize, y_col: usize, x_low: i32, x_step: i32, y_low: i32, y_step: i32) -> (r: Result<Complex, GridError>)
        ensures
            x_col * y_col > usize::MAX ==> r == Err::<Complex, GridError>(GridError::LengthOverflow { x_col, y_col }),
            x_col * y_col <= usize::MAX && !window_fits(x_col as int, y_col as int, x_low, x_step, y_low, y_step)
                ==> r == Err::<Complex, GridError>(GridError::CoordinateOverflow { x_col, y_col }),
            x_col * y_col <= usize::MAX && window_fits(x_col as int, y_col as int, x_low, x_step, y_low, y_step)
                ==> r is Ok && r->Ok_0.is_grid(x_col as int, y_col as int, x_low, x_step, y_low, y_step),
    {
        let length = match x_col.checked_mul(y_col) {
            Some(l) => l,
            None => return Err(GridError::LengthOverflow { x_col, y_col }),
        };
        if length > 0 && !(axis_in_range(x_low, x_step, x_col) && axis_in_range(y_low, y_step, y_col)) {
            return Err(GridError::CoordinateOverflow { x_col, y_col });
        }
        let mut re: Vec<[i32; LANES]> = Vec::new();
        let mut im: Vec<[i32; LANES]> = Vec::new();
        let mut i: usize = 0;
        while i < x_col
            invariant
                length == x_col * y_col,
                i <= x_col,
                length > 0 ==> axis_fits(x_low, x_step, x_col as int) && axis_fits(y_low, y_step, y_col as int),
                re@.len() == i * y_col,
                im@.len() == i * y_col,
                forall|idx: int, k: int| 0 <= idx < re@.len() && 0 <= k < LANES ==>
                    #[trigger] re@[idx][k] == re_coord(x_low, x_step, idx / (y_col as int), k),
                forall|idx: int, k: int| 0 <= idx < im@.len() && 0 <= k < LANES ==>
                    #[trigger] im@[idx][k] == im_coord(y_low, y_step, idx % (y_col as int), k),
            decreases x_col - i,
        {
            let mut j: usize = 0;
            while j < y_col
                invariant
                    length == x_col * y_col,
                    i < x_col,
                    j <= y_col,
                    length > 0 ==> axis_fits(x_low, x_step, x_col as int) && axis_fits(y_low, y_step, y_col as int),
                    re@.len() == i * y_col + j,
                    im@.len() == i * y_col + j,
                    forall|idx: int, k: int| 0 <= idx < re@.len() && 0 <= k < LANES ==>
                        #[trigger] re@[idx][k] == re_coord(x_low, x_step, idx / (y_col as int), k),
                    forall|idx: int, k: int| 0 <= idx < im@.len() && 0 <= k < LANES ==>
                        #[trigger] im@[idx][k] == im_coord(y_low, y_step, idx % (y_col as int), k),
                decreases y_col - j,
            {
                proof {
                    assert(x_col * y_col > 0) by (nonlinear_arith)
                        requires i < x_col, j < y_col;
                    lemma_fundamental_div_mod_converse(i * y_col + j, y_col as int, i as int, j as int);
                }
                re.push(re_batch(x_low, x_step, x_col, i));
                im.push(im_batch(y_low, y_step, y_col, j));
                j += 1;
            }
            proof {
                assert((i + 1) * y_col == i * y_col + y_col) by (nonlinear_arith);
            }
            i += 1;
        }
        let r = Complex { re, im };
        proof {
            assert forall|i: int, j: int, k: int|
                0 <= i < x_col && 0 <= j < y_col && 0 <= k < LANES implies
                #[trigger] r.re@[i * y_col + j][k] == re_coord(x_low, x_step, i, k)
                && r.im@[i * y_col + j][k] == im_coord(y_low, y_step, j, k) by {
                lemma_fundamental_div_mod_converse(i * y_col + j, y_col as int, i, j);
                assert(0 <= i * y_col + j < x_col * y_col) by (nonlinear_arith)
                    requires 0 <= i < x_col, 0 <= j < y_col;
            }
            assert forall|i: int, j: int, k: int|
                0 <= i < x_col && 0 <= j < y_col && 0 <= k < LANES implies
                #[trigger] r.im@[i * y_col + j][k] == im_coord(y_low, y_step, j, k) by {
                assert(r.re@[i * y_col + j][k] == re_coord(x_low, x_step, i, k));
            }
        }
        Ok(r)
    }
}

/// Between the first and the `last` sub-sample, coordinates move one way.
proof fn lemma_axis_between(low: int, step: int, m: int, last: int)
    requires
        0 <= m <= last,
    ensures
        step >= 0 ==> low <= axis_coord(low, step, m) <= axis_coord(low, step, last),
        step < 0 ==> axis_coord(low, step, last) <= axis_coord(low, step, m) <= low,
{
    if step >= 0 {
        assert(0 <= m * step <= last * step) by (nonlinear_arith)
            requires 0 <= m <= last, step >= 0;
        lemma_div_is_ordered(0, m * step, 8);
        lemma_div_is_ordered(m * step, last * step, 8);
    } else {
        assert(last * step <= m * step <= 0) by (nonlinear_arith)
            requires 0 <= m <= last, step < 0;
        lemma_div_is_ordered(last * step, m * step, 8);
        lemma_div_is_ordered(m * step, 0, 8);
    }
}

/// The coordinate of sub-sample `m`.
fn axis_value(low: i32, step: i32, m: i128) -> (r: i32)
    requires
        0 <= m <= 0x1_0000_0000_0000_0000_0000,
        in_i32(axis_coord(low as int, step as int, m as int)),
    ensures
        r == axis_coord(low as int, step as int, m as int),
{
    assert(-0x1_0000_0000_0000_0000_0000_0000_0000 <= m * step <= 0x1_0000_0000_0000_0000_0000_0000_0000) by (nonlinear_arith)
        requires 0 <= m <= 0x1_0000_0000_0000_0000_0000, i32::MIN <= step <= i32::MAX;
    let p: i128 = m * (step as i128);
    let q: i128 = match p.checked_div_euclid(8) {
        Some(q) => q,
        None => 0,
    };
    (low as i128 + q) as i32
}

/// Whether every sub-sample coordinate of `n` blocks along an axis fits in `i32`.
fn axis_in_range(low: i32, step: i32, n: usize) -> (r: bool)
    requires
        n > 0,
    ensures
        r == axis_fits(low, step, n as int),
{
    let last: i128 = (n as i128) * 8 - 1;
    assert(-0x1_0000_0000_0000_0000_0000_0000_0000 <= last * step <= 0x1_0000_0000_0000_0000_0000_0000_0000) by (nonlinear_arith)
        requires 0 <= last <= 0x1_0000_0000_0000_0000_0000, i32::MIN <= step <= i32::MAX;
    let p: i128 = last * (step as i128);
    let q: i128 = match p.checked_div_euclid(8) {
        Some(q) => q,
        None => 0,
    };
    let v: i128 = low as i128 + q;
    let r = i32::MIN as i128 <= v && v <= i32::MAX as i128;
    proof {
        if r {
            assert forall|m: int| 0 <= m < 8 * n implies #[trigger] in_i32(axis_coord(low as int, step as int, m)) by {
                lemma_axis_between(low as int, step as int, m, last as int);
            }
        } else {
            assert(!in_i32(axis_coord(low as int, step as int, last as int)));
        }
    }
    r
}

/// Real parts of the sub-samples of a block in column `i`.
fn re_batch(x_low: i32, x_step: i32, x_col: usize, i: usize) -> (r: [i32; LANES])
    requires
        i < x_col,
        axis_fits(x_low, x_step, x_col as int),
    ensures
        forall|k: int| 0 <= k < LANES ==> #[trigger] r[k] == re_coord(x_low, x_step, i as int, k),
{
    let mut r: [i32; LANES] = [0i32; LANES];
    let mut k: usize = 0;
    while k < LANES
        invariant
            i < x_col,
            axis_fits(x_low, x_step, x_col as int),
            k <= LANES,
            forall|kk: int| 0 <= kk < k ==> #[trigger] r[kk] == re_coord(x_low, x_step, i as int, kk),
        decreases LANES - k,
    {
        let m: i128 = (i as i128) * 8 + (k % SUB) as i128;
        assert(in_i32(axis_coord(x_low as int, x_step as int, m as int)));
        r[k] = axis_value(x_low, x_step, m);
        k += 1;
    }
    r
}

/// Imaginary parts of the sub-samples of a block in row `j`.
fn im_batch(y_low: i32, y_step: i32, y_col: usize, j: usize) -> (r: [i32; LANES])
    requires
        j < y_col,
        axis_fits(y_low, y_step, y_col as int),
    ensures
        forall|k: int| 0 <= k < LANES ==> #[trigger] r[k] == im_coord(y_low, y_step, j as int, k),
{
    let mut r: [i32; LANES] = [0i32; LANES];
    let mut k: usize = 0;
    while k < LANES
        invariant
            j < y_col,
            axis_fits(y_low, y_step, y_col as int),
            k <= LANES,
            forall|kk: int| 0 <= kk < k ==> #[trigger] r[kk] == im_coord(y_low, y_step, j as int, kk),
        decreases LANES - k,
    {
        let m: i128 = (j as i128) * 8 + (k / SUB) as i128;
        assert(in_i32(axis_coord(y_low as int, y_step as int, m as int)));
        r[k] = axis_value(y_low, y_step, m);
        k += 1;
    }
    r
}

} // verus!
