use mandelbrot_render::fixed::{LANES, SCALE};
use mandelbrot_render::grid::{Complex, GridError};
use mandelbrot_render::kernel::mandelbrot;
use mandelbrot_render::render::{escape_grid, image_phases, palette_phase, pixel_lookup, render};

fn to_fixed(v: f64) -> i32 {
    (v * SCALE as f64).floor() as i32
}

fn lanes_of(cr: i32, ci: i32) -> ([i32; LANES], [i32; LANES]) {
    ([cr; LANES], [ci; LANES])
}

fn run(re: &[i32; LANES], im: &[i32; LANES]) -> [u8; LANES] {
    let mut rst = [7u8; LANES];
    mandelbrot(re, im, &mut rst);
    rst
}

// One lane at a time, with the same rounding of each product.
fn scalar_escape(cr: i32, ci: i32) -> u8 {
    let (mut zr, mut zi) = (0i64, 0i64);
    for it in 0..=255u32 {
        let nr = (zr * zr - zi * zi).div_euclid(SCALE) + cr as i64;
        let ni = (2 * zr * zi).div_euclid(SCALE) + ci as i64;
        zr = nr;
        zi = ni;
        let mag = (zr as i128) * (zr as i128) + (zi as i128) * (zi as i128);
        if mag >= 32 * (SCALE as i128) * (SCALE as i128) {
            return it as u8;
        }
    }
    255
}

#[test]
fn grid_length_and_coordinates() {
    let (x_col, y_col) = (3usize, 2usize);
    let (x_low, x_step, y_low, y_step) = (-1000, 80, 500, -16);
    let c = Complex::new(x_col, y_col, x_low, x_step, y_low, y_step).unwrap();
    assert_eq!(c.re.len(), 6);
    assert_eq!(c.im.len(), 6);
    for i in 0..x_col {
        for j in 0..y_col {
            for k in 0..LANES {
                let m = 8 * i as i64 + (k % 8) as i64;
                let n = 8 * j as i64 + (k / 8) as i64;
                let re = x_low as i64 + (m * x_step as i64).div_euclid(8);
                let im = y_low as i64 + (n * y_step as i64).div_euclid(8);
                assert_eq!(c.re[i * y_col + j][k] as i64, re);
                assert_eq!(c.im[i * y_col + j][k] as i64, im);
            }
        }
    }
    // block (2, 1), lane 8 * 3 + 5: sub-sample column 5, row 3
    assert_eq!(c.re[2 * 2 + 1][29], -1000 + 2 * 80 + 50);
    assert_eq!(c.im[2 * 2 + 1][29], 500 - 16 - 6);
}

#[test]
fn grid_length_overflow() {
    let r = Complex::new(usize::MAX, 2, 0, 1, 0, 1);
    assert!(matches!(r, Err(GridError::LengthOverflow { x_col: usize::MAX, y_col: 2 })));
}

#[test]
fn grid_coordinate_overflow() {
    let r = Complex::new(4, 4, i32::MAX - 10, 100, 0, 1);
    assert!(matches!(r, Err(GridError::CoordinateOverflow { x_col: 4, y_col: 4 })));
    let r = Complex::new(4, 4, 0, 1, i32::MIN + 10, -100);
    assert!(matches!(r, Err(GridError::CoordinateOverflow { x_col: 4, y_col: 4 })));
}

#[test]
fn grid_empty() {
    let c = Complex::new(0, usize::MAX, i32::MAX, i32::MAX, 0, 0).unwrap();
    assert!(c.re.is_empty());
    assert!(c.im.is_empty());
}

#[test]
fn origin_never_escapes() {
    let (re, im) = lanes_of(0, 0);
    assert_eq!(run(&re, &im), [255u8; LANES]);
}

#[test]
fn far_point_escapes_at_once() {
    let (re, im) = lanes_of(to_fixed(1000.0), to_fixed(1000.0));
    assert_eq!(run(&re, &im), [0u8; LANES]);
}

#[test]
fn exact_escape_indices() {
    let mut re = [0i32; LANES];
    let im = [0i32; LANES];
    // c = 1: 1, 2, 5, 26 -> |z|^2 = 676 after step 4
    re[0] = to_fixed(1.0);
    // c = 2: 2, 6 -> |z|^2 = 36 after step 2
    re[1] = to_fixed(2.0);
    // c = -2: 2 is a fixed point
    re[2] = to_fixed(-2.0);
    // c = 6: |z|^2 = 36 after step 1
    re[3] = to_fixed(6.0);
    let r = run(&re, &im);
    assert_eq!(r[0], 3);
    assert_eq!(r[1], 1);
    assert_eq!(r[2], 255);
    assert_eq!(r[3], 0);
    assert_eq!(r[4], 255);
}

#[test]
fn escape_threshold_is_inclusive() {
    // |c|^2 == 32 exactly: c = 4 + 4i
    let (re, im) = lanes_of(to_fixed(4.0), to_fixed(4.0));
    assert_eq!(run(&re, &im)[0], 0);
    // just inside: c = 5.5, |c|^2 = 30.25, then z2 = 35.75 -> escapes at 1
    let (re, im) = lanes_of(to_fixed(5.5), 0);
    assert_eq!(run(&re, &im)[0], 1);
}

#[test]
fn mixed_lanes_are_independent() {
    let mut re = [0i32; LANES];
    let mut im = [0i32; LANES];
    for k in 0..LANES {
        re[k] = -150000 + 5000 * k as i32;
        im[k] = 20000 - 700 * k as i32;
    }
    let r = run(&re, &im);
    for k in 0..LANES {
        assert_eq!(r[k], scalar_escape(re[k], im[k]));
    }
}

#[test]
fn kernel_is_deterministic() {
    let mut re = [0i32; LANES];
    let im = [to_fixed(0.3); LANES];
    for k in 0..LANES {
        re[k] = to_fixed(-1.9) + 3000 * k as i32;
    }
    assert_eq!(run(&re, &im), run(&re, &im));
}

#[test]
fn one_block_matches_scalar_iteration() {
    let (x_low, x_step) = (to_fixed(-2.65), to_fixed(0.1));
    let (y_low, y_step) = (to_fixed(-1.25), to_fixed(0.1));
    let r = render(1, 1, x_low, x_step, y_low, y_step).unwrap();
    assert_eq!(r.len(), 1);
    let c = Complex::new(1, 1, x_low, x_step, y_low, y_step).unwrap();
    for k in 0..LANES {
        assert_eq!(r[0][k], scalar_escape(c.re[0][k], c.im[0][k]));
    }
    // the whole block lies far out on the left: everything escapes early
    assert!(r[0].iter().all(|&v| v < 255));
}

#[test]
fn render_matches_grid_and_kernel() {
    let (x_col, y_col) = (4usize, 3usize);
    let (x_low, x_step, y_low, y_step) = (to_fixed(-2.0), to_fixed(0.6), to_fixed(-1.0), to_fixed(0.7));
    let r = render(x_col, y_col, x_low, x_step, y_low, y_step).unwrap();
    let c = Complex::new(x_col, y_col, x_low, x_step, y_low, y_step).unwrap();
    assert_eq!(r, escape_grid(&c));
    for i in 0..x_col {
        for j in 0..y_col {
            for k in 0..LANES {
                let idx = i * y_col + j;
                assert_eq!(r[idx][k], scalar_escape(c.re[idx][k], c.im[idx][k]));
            }
        }
    }
    assert!(r.iter().any(|b| b.contains(&255)));
}

#[test]
fn render_errors() {
    assert_eq!(render(usize::MAX, 3, 0, 1, 0, 1), Err(GridError::LengthOverflow { x_col: usize::MAX, y_col: 3 }));
    assert_eq!(render(2, 2, 0, i32::MAX, 0, 1), Err(GridError::CoordinateOverflow { x_col: 2, y_col: 2 }));
}

#[test]
fn sentinel_phase_is_fixed() {
    // t = (2 * 255 / 256 + 0.5) mod 1 = 126 / 256
    assert_eq!(palette_phase(255), 126);
    assert_eq!(palette_phase(255), palette_phase(255));
    assert_eq!(palette_phase(0), 128);
    assert_eq!(palette_phase(64), 0);
    assert_eq!(palette_phase(100), 72);
}

#[test]
fn pixel_lookup_geometry() {
    assert_eq!(pixel_lookup(17, 9, 135), Some((2 * 135 + 1, 8 + 1)));
    assert_eq!(pixel_lookup(0, 0, 135), Some((0, 0)));
    assert_eq!(pixel_lookup(7, 7, 5), Some((0, 63)));
    assert_eq!(pixel_lookup(usize::MAX, 0, 9), None);
}

#[test]
fn image_phases_follow_blocks_and_lanes() {
    let (x_col, y_col) = (2usize, 3usize);
    let mut results = vec![[0u8; LANES]; x_col * y_col];
    for (idx, b) in results.iter_mut().enumerate() {
        for k in 0..LANES {
            b[k] = (idx * 64 + k) as u8;
        }
    }
    let img = image_phases(&results, x_col, y_col);
    let width = x_col * 8;
    assert_eq!(img.len(), 64 * x_col * y_col);
    for y in 0..y_col * 8 {
        for x in 0..width {
            let (block, lane) = pixel_lookup(x, y, y_col).unwrap();
            assert_eq!(block, (x / 8) * y_col + y / 8);
            assert_eq!(img[y * width + x], palette_phase(results[block][lane]));
        }
    }
    // pixel (9, 17): block (1, 2) = index 5, lane 1 * 8 + 1
    assert_eq!(img[17 * width + 9], palette_phase((5 * 64 + 9) as u8));
    assert!(image_phases(&Vec::new(), 0, 4).is_empty());
}
