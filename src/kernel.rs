//! The escape-time iteration `z -> z^2 + c`, run on all lanes of a batch.
use vstd::prelude::*;
use vstd::arithmetic::div_mod::lemma_div_is_ordered;
use crate::fixed::{LANES, SCALE};

verus! {

/// Real part of `z^2 + c`, the product rounded down to a fixed-point value.
pub open spec fn next_re(zr: int, zi: int, cr: int) -> int {
    (zr * zr - zi * zi) / (SCALE as int) + cr
}

/// Imaginary part of `z^2 + c`, the product rounded down to a fixed-point value.
pub open spec fn next_im(zr: int, zi: int, ci: int) -> int {
    (2 * zr * zi) / (SCALE as int) + ci
}

/// The orbit of `0` under `z -> z^2 + c` after `n` steps.
pub open spec fn orbit(cr: int, ci: int, n: nat) -> (int, int)
    decreases n,
{
    if n == 0 {
        (0, 0)
    } else {
        let z = orbit(cr, ci, (n - 1) as nat);
        (next_re(z.0, z.1, cr), next_im(z.0, z.1, ci))
    }
}

/// `|z|^2 >= 32`: the point has escaped.
pub open spec fn outside(z: (int, int)) -> bool {
    z.0 * z.0 + z.1 * z.1 >= 32 * (SCALE as int) * (SCALE as int)
}

/// The first iteration from `it` on (0-indexed: iteration `it` makes step
/// `it + 1`) after which the orbit of `c` has escaped, or 255 when none
/// before iteration 255 does.
pub open spec fn escape_from(cr: int, ci: int, it: nat) -> int
    decreases 255 - it,
{
    if it >= 255 {
        255
    } else if outside(orbit(cr, ci, it + 1)) {
        it as int
    } else {
        escape_from(cr, ci, it + 1)
    }
}

/// The escape index of `c`: the iteration at which its orbit first leaves the
/// disc `|z|^2 < 32`, or 255 when it stays within the budget.
pub open spec fn escape_time(cr: int, ci: int) -> int {
    escape_from(cr, ci, 0)
}

/// A lane that has not escaped during the first `n` steps, with its orbit
/// held in `(zr, zi)`.
spec fn running(cr: int, ci: int, zr: i64, zi: i64, n: nat) -> bool {
    &&& zr == orbit(cr, ci, n).0
    &&& zi == orbit(cr, ci, n).1
    &&& !outside(orbit(cr, ci, n))
    &&& escape_time(cr, ci) == escape_from(cr, ci, n)
}

/// One step of an orbit that is still inside the escape disc.
fn orbit_step(zr: i64, zi: i64, cr: i32, ci: i32) -> (r: (i64, i64))
    requires
        !outside((zr as int, zi as int)),
    ensures
        r.0 == next_re(zr as int, zi as int, cr as int),
        r.1 == next_im(zr as int, zi as int, ci as int),
        -0x100_0000_0000 < r.0 < 0x100_0000_0000,
        -0x100_0000_0000 < r.1 < 0x100_0000_0000,
{
    assert(-0x80000 < zr < 0x80000 && -0x80000 < zi < 0x80000) by (nonlinear_arith)
        requires zr * zr + zi * zi < 0x20_0000_0000;
    assert(0 <= zr * zr < 0x40_0000_0000 && 0 <= zi * zi < 0x40_0000_0000) by (nonlinear_arith)
        requires -0x80000 < zr < 0x80000, -0x80000 < zi < 0x80000;
    assert(-0x80_0000_0000 < 2 * zr * zi < 0x80_0000_0000) by (nonlinear_arith)
        requires -0x80000 < zr < 0x80000, -0x80000 < zi < 0x80000;
    let sq: i64 = zr * zr - zi * zi;
    let cross: i64 = 2 * zr * zi;
    let qr: i64 = match sq.checked_div_euclid(SCALE) {
        Some(q) => q,
        None => 0,
    };
    let qi: i64 = match cross.checked_div_euclid(SCALE) {
        Some(q) => q,
        None => 0,
    };
    proof {
        lemma_div_is_ordered(-0x80_0000_0000, sq as int, 65536);
        lemma_div_is_ordered(sq as int, 0x80_0000_0000, 65536);
        lemma_div_is_ordered(-0x80_0000_0000, cross as int, 65536);
        lemma_div_is_ordered(cross as int, 0x80_0000_0000, 65536);
    }
    (qr + cr as i64, qi + ci as i64)
}

/// Whether `z` has escaped, for a value one step away from the escape disc.
fn is_outside(zr: i64, zi: i64) -> (r: bool)
    requires
        -0x100_0000_0000 < zr < 0x100_0000_0000,
        -0x100_0000_0000 < zi < 0x100_0000_0000,
    ensures
        r == outside((zr as int, zi as int)),
{
    assert(0 <= zr * zr <= 0x1_0000_0000_0000_0000_0000 && 0 <= zi * zi <= 0x1_0000_0000_0000_0000_0000) by (nonlinear_arith)
        requires -0x100_0000_0000 < zr < 0x100_0000_0000, -0x100_0000_0000 < zi < 0x100_0000_0000;
    let zr2: i128 = zr as i128 * zr as i128;
    let zi2: i128 = zi as i128 * zi as i128;
    zr2 + zi2 >= 32 * (SCALE as i128) * (SCALE as i128)
}

/// Runs the escape-time iteration on the 64 lanes of a batch at once and
/// writes into `rst`, for each lane, the iteration at which its point escaped,
/// or 255 when it did not within the budget of 256 iterations.
pub fn mandelbrot(re: &[i32; LANES], im: &[i32; LANES], rst: &mut [u8; LANES])
    ensures
        forall|k: int| 0 <= k < LANES ==> #[trigger] final(rst)[k] == escape_time(re[k] as int, im[k] as int),
{
    let mut z_re: [i64; LANES] = [0i64; LANES];
    let mut z_im: [i64; LANES] = [0i64; LANES];
    let mut active: [bool; LANES] = [true; LANES];
    *rst = [255u8; LANES];
    let mut it: u8 = 0;
    assert forall|k: int| 0 <= k < LANES implies running(re[k] as int, im[k] as int, #[trigger] z_re[k], z_im[k], 0) by {
        assert(orbit(re[k] as int, im[k] as int, 0) == (0int, 0int));
    }
    loop
        invariant_except_break
            forall|k: int| 0 <= k < LANES ==> #[trigger] active[k] ==>
                running(re[k] as int, im[k] as int, z_re[k], z_im[k], it as nat) && rst[k] == 255,
            forall|k: int| 0 <= k < LANES ==> !#[trigger] active[k] ==>
                rst[k] == escape_time(re[k] as int, im[k] as int),
        ensures
            forall|k: int| 0 <= k < LANES ==> #[trigger] rst[k] == escape_time(re[k] as int, im[k] as int),
        decreases 255 - it,
    {
        let mut any_active = false;
        let mut k: usize = 0;
        while k < LANES
            invariant
                k <= LANES,
                forall|kk: int| k <= kk < LANES ==> #[trigger] active[kk] ==>
                    running(re[kk] as int, im[kk] as int, z_re[kk], z_im[kk], it as nat) && rst[kk] == 255,
                forall|kk: int| 0 <= kk < k ==> #[trigger] active[kk] ==>
                    running(re[kk] as int, im[kk] as int, z_re[kk], z_im[kk], it as nat + 1) && rst[kk] == 255,
                forall|kk: int| 0 <= kk < LANES ==> !#[trigger] active[kk] ==>
                    rst[kk] == escape_time(re[kk] as int, im[kk] as int),
                !any_active ==> forall|kk: int| 0 <= kk < k ==> !#[trigger] active[kk],
            decreases LANES - k,
        {
            if active[k] {
                let z = orbit_step(z_re[k], z_im[k], re[k], im[k]);
                z_re[k] = z.0;
                z_im[k] = z.1;
                if is_outside(z.0, z.1) {
                    active[k] = false;
                    rst[k] = it;
                } else {
                    any_active = true;
                }
            }
            k += 1;
        }
        if !any_active || it == 255 {
            proof {
                assert forall|k: int| 0 <= k < LANES implies #[trigger] rst[k] == escape_time(re[k] as int, im[k] as int) by {
                    if active[k] {
                        assert(escape_from(re[k] as int, im[k] as int, it as nat + 1) == 255);
                    }
                }
            }
            break;
        }
        it += 1;
    }
}

/// From any iteration on, the escape index lies in `0..=255`.
proof fn lemma_escape_from_range(cr: int, ci: int, it: nat)
    ensures
        0 <= escape_from(cr, ci, it) <= 255,
    decreases 255 - it,
{
    if it < 255 && !outside(orbit(cr, ci, it + 1)) {
        lemma_escape_from_range(cr, ci, it + 1);
    }
}

/// Every point has an escape index in `{0, 1, ..., 255}`.
pub proof fn lemma_escape_time_range(cr: int, ci: int)
    ensures
        0 <= escape_time(cr, ci) <= 255,
{
    lemma_escape_from_range(cr, ci, 0);
}

/// The orbit of `c = 0` stays at `0`.
proof fn lemma_origin_orbit(n: nat)
    ensures
        orbit(0, 0, n) == (0int, 0int),
    decreases n,
{
    if n > 0 {
        lemma_origin_orbit((n - 1) as nat);
    }
}

/// `c = 0` never escapes from any iteration on.
proof fn lemma_origin_escape_from(it: nat)
    ensures
        escape_from(0, 0, it) == 255,
    decreases 255 - it,
{
    if it < 255 {
        lemma_origin_orbit(it + 1);
        lemma_origin_escape_from(it + 1);
    }
}

/// The fixed point `c = 0` is bounded: its escape index is the sentinel 255.
pub proof fn lemma_origin_is_bounded()
    ensures
        escape_time(0, 0) == 255,
{
    lemma_origin_escape_from(0);
}

/// A point that already lies outside the escape disc escapes at iteration 0,
/// since the first step takes `0` to `c`.
pub proof fn lemma_far_point_escapes_at_once(cr: int, ci: int)
    requires
        outside((cr, ci)),
    ensures
        escape_time(cr, ci) == 0,
{
    assert(orbit(cr, ci, 0) == (0int, 0int));
    assert(next_re(0, 0, cr) == cr && next_im(0, 0, ci) == ci);
    assert(orbit(cr, ci, 1) == (cr, ci));
}

/// Two runs of the kernel on the same batch give the same escape indices.
pub proof fn lemma_kernel_deterministic(re: [i32; LANES], im: [i32; LANES], r1: [u8; LANES], r2: [u8; LANES])
    requires
        forall|k: int| 0 <= k < LANES ==> #[trigger] r1[k] == escape_time(re[k] as int, im[k] as int),
        forall|k: int| 0 <= k < LANES ==> #[trigger] r2[k] == escape_time(re[k] as int, im[k] as int),
    ensures
        r1 == r2,
{
    assert(r1@ =~= r2@);
}

} // verus!
