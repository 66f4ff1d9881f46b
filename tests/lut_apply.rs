use raw::cube::parse_cube;
use raw::lut3d::{clip_uint, interp_8_tetrahedral, interp_nearest, interp_tetrahedral, LUT3DContext, Rgb, ONE};

fn cube_from(size: usize, f: impl Fn(f64, f64, f64) -> (f64, f64, f64)) -> LUT3DContext {
    let d = (size - 1) as f64;
    let mut t = format!("LUT_3D_SIZE {}\n", size);
    for k in 0..size {
        for j in 0..size {
            for i in 0..size {
                let (r, g, b) = f(i as f64 / d, j as f64 / d, k as f64 / d);
                t.push_str(&format!("{:.6} {:.6} {:.6}\n", r, g, b));
            }
        }
    }
    parse_cube(t.as_bytes()).unwrap()
}

#[test]
fn identity_table_keeps_colors() {
    for size in [2usize, 5, 17, 33] {
        let lut = cube_from(size, |r, g, b| (r, g, b));
        let mut px = Vec::new();
        for r in (0..=255u32).step_by(5) {
            for g in (0..=255u32).step_by(17) {
                for b in [0u32, 1, 127, 128, 254, 255] {
                    px.extend_from_slice(&[r as u8, g as u8, b as u8]);
                }
            }
        }
        let out = interp_8_tetrahedral(lut, px.clone(), 6, 3);
        assert_eq!(out.len(), px.len());
        for (o, i) in out.iter().zip(px.iter()) {
            assert!(*o <= *i && *o as u16 + 1 >= *i as u16, "size {} in {} out {}", size, i, o);
        }
    }
}

#[test]
fn exact_identity_is_lossless() {
    let lut = cube_from(2, |r, g, b| (r, g, b));
    let px: Vec<u8> = (0..=255u8).flat_map(|v| [v, 255 - v, v / 2]).collect();
    let out = interp_8_tetrahedral(lut, px.clone(), 16, 3);
    assert_eq!(out, px);
}

#[test]
fn lattice_points_are_exact() {
    // With 18 points per axis, every multiple of 15 is a grid point.
    let lut = cube_from(18, |r, g, b| (r * r, 1.0 - g, 0.25 + b / 2.0));
    for (i, j, k) in [(0usize, 0usize, 0usize), (17, 17, 17), (3, 9, 12), (17, 0, 5)] {
        let c = interp_tetrahedral(&lut, (15 * i) as u8, (15 * j) as u8, (15 * k) as u8);
        let v = lut.get(i, j, k);
        assert_eq!(c, Rgb { r: 255 * v.r, g: 255 * v.g, b: 255 * v.b });
    }
}

#[test]
fn tetrahedral_weights() {
    // A table whose red output is 1 only at the far corner: the result is the
    // weight of that corner, the smallest fractional offset.
    let lut = cube_from(2, |r, g, b| (r * g * b, r, 1.0 - r));
    let c = interp_tetrahedral(&lut, 200, 100, 50);
    assert_eq!(c, Rgb { r: 50 * ONE, g: 200 * ONE, b: 55 * ONE });
    let c = interp_tetrahedral(&lut, 50, 100, 200);
    assert_eq!(c.r, 50 * ONE);
    let c = interp_tetrahedral(&lut, 100, 200, 50);
    assert_eq!(c.r, 50 * ONE);
    let c = interp_tetrahedral(&lut, 100, 100, 100);
    assert_eq!(c, Rgb { r: 100 * ONE, g: 100 * ONE, b: 155 * ONE });
}

#[test]
fn inverting_table() {
    let lut = cube_from(2, |r, g, b| (1.0 - r, 1.0 - g, 1.0 - b));
    let px = vec![0u8, 100, 255, 17, 200, 3];
    let out = interp_8_tetrahedral(lut, px, 2, 3);
    assert_eq!(out, vec![255u8, 155, 0, 238, 55, 252]);
}

#[test]
fn extra_components_are_zeroed() {
    let lut = cube_from(2, |r, g, b| (r, g, b));
    let px = vec![10u8, 20, 30, 40, 50, 60, 70, 80];
    let out = interp_8_tetrahedral(lut, px, 1, 4);
    assert_eq!(out, vec![10u8, 20, 30, 0, 50, 60, 70, 0]);
}

#[test]
fn empty_buffer() {
    let lut = cube_from(2, |r, g, b| (r, g, b));
    assert!(interp_8_tetrahedral(lut, Vec::new(), 4, 3).is_empty());
}

#[test]
fn clipping() {
    assert_eq!(clip_uint(-5), 0);
    assert_eq!(clip_uint(-ONE * 3), 0);
    assert_eq!(clip_uint(0), 0);
    assert_eq!(clip_uint(128 * ONE + 5), 128);
    assert_eq!(clip_uint(255 * ONE + ONE - 1), 255);
    assert_eq!(clip_uint(300 * ONE), 255);
}

#[test]
fn out_of_range_values_clamp() {
    let lut = cube_from(2, |r, _g, _b| (2.0 * r, -r, 0.5));
    let out = interp_8_tetrahedral(lut, vec![255u8, 0, 0, 100, 0, 0], 2, 3);
    assert_eq!(out, vec![255u8, 0, 127, 200, 0, 127]);
}

#[test]
fn nearest_grid_point() {
    let lut = cube_from(3, |r, g, b| (r, g, b));
    assert_eq!(interp_nearest(&lut, 63, 64, 192), Rgb { r: 0, g: ONE / 2, b: ONE });
    assert_eq!(interp_nearest(&lut, 255, 0, 127), Rgb { r: ONE, g: 0, b: ONE / 2 });
    assert_eq!(interp_nearest(&lut, 128, 191, 191), Rgb { r: ONE / 2, g: ONE / 2, b: ONE / 2 });
}

#[test]
fn blank_table() {
    let lut = LUT3DContext::new(3);
    assert_eq!(lut.lutsize, 3);
    assert_eq!(lut.lut.len(), 27);
    assert!(lut.lut.iter().all(|c| *c == Rgb { r: 0, g: 0, b: 0 }));
    let out = interp_8_tetrahedral(lut, vec![1u8, 2, 3], 1, 3);
    assert_eq!(out, vec![0u8, 0, 0]);
}
