use raw::cube::{parse_cube, parse_decimal, LutError};
use raw::lut3d::{Rgb, ONE};

fn rgb(r: i64, g: i64, b: i64) -> Rgb {
    Rgb { r, g, b }
}

fn cube_text(size: usize, rows: &[(f64, f64, f64)]) -> String {
    let mut t = format!("LUT_3D_SIZE {}\n", size);
    for (r, g, b) in rows {
        t.push_str(&format!("{:.6} {:.6} {:.6}\n", r, g, b));
    }
    t
}

fn identity_rows(size: usize) -> Vec<(f64, f64, f64)> {
    let mut rows = Vec::new();
    let d = (size - 1) as f64;
    for k in 0..size {
        for j in 0..size {
            for i in 0..size {
                rows.push((i as f64 / d, j as f64 / d, k as f64 / d));
            }
        }
    }
    rows
}

#[test]
fn decimal_tokens() {
    assert_eq!(parse_decimal(b"0.5"), Some(500_000));
    assert_eq!(parse_decimal(b"-1.25"), Some(-1_250_000));
    assert_eq!(parse_decimal(b"+2"), Some(2 * ONE));
    assert_eq!(parse_decimal(b".5"), Some(500_000));
    assert_eq!(parse_decimal(b"1."), Some(ONE));
    assert_eq!(parse_decimal(b"1.1234567"), Some(1_123_456));
    assert_eq!(parse_decimal(b"999.9999999"), Some(999_999_999));
    assert_eq!(parse_decimal(b"0.000001"), Some(1));
    assert_eq!(parse_decimal(b"1000"), None);
    assert_eq!(parse_decimal(b"abc"), None);
    assert_eq!(parse_decimal(b"1.2.3"), None);
    assert_eq!(parse_decimal(b"."), None);
    assert_eq!(parse_decimal(b"-"), None);
    assert_eq!(parse_decimal(b""), None);
}

#[test]
fn decimal_exponents() {
    assert_eq!(parse_decimal(b"1.0e-03"), Some(1_000));
    assert_eq!(parse_decimal(b"1e2"), Some(100 * ONE));
    assert_eq!(parse_decimal(b"2.5E+1"), Some(25 * ONE));
    assert_eq!(parse_decimal(b"-1.5e-6"), Some(-1));
    assert_eq!(parse_decimal(b"1e-7"), Some(0));
    assert_eq!(parse_decimal(b"123456789e-6"), Some(123_456_789));
    assert_eq!(parse_decimal(b".5e1"), Some(5 * ONE));
    assert_eq!(parse_decimal(b"9.99e2"), Some(999 * ONE));
    assert_eq!(parse_decimal(b"1e3"), None);
    assert_eq!(parse_decimal(b"1e99999999999999999999999999"), None);
    assert_eq!(parse_decimal(b"0e99999999999999999999999999"), Some(0));
    assert_eq!(parse_decimal(b"0.0001e5"), Some(10 * ONE));
    assert_eq!(parse_decimal(b"7e-99999999999999999999999999"), Some(0));
    assert_eq!(parse_decimal(b"1e"), None);
    assert_eq!(parse_decimal(b"1e+"), None);
    assert_eq!(parse_decimal(b"e5"), None);
    assert_eq!(parse_decimal(b"1e5e1"), None);
    assert_eq!(parse_decimal(b"1.5e1.0"), None);
}

#[test]
fn rows_in_exponent_notation() {
    let t = "LUT_3D_SIZE 2\n0e0 0 0\n1.0e+00 0 0\n0 1E0 0\n1 1 0\n0 0 1000e-3\n1 0 1\n0 1 1\n1 1 1.0E-00\n";
    let lut = parse_cube(t.as_bytes()).unwrap();
    assert_eq!(lut.get(1, 0, 0), rgb(ONE, 0, 0));
    assert_eq!(lut.get(0, 0, 1), rgb(0, 0, ONE));
    assert_eq!(lut.get(1, 1, 1), rgb(ONE, ONE, ONE));
}

#[test]
fn directives_only_at_line_start() {
    let body: String = cube_text(2, &identity_rows(2));
    let plain = parse_cube(body.as_bytes()).unwrap();
    // Indented directives, and directives without their space, are stray lines.
    for stray in [" DOMAIN_MAX\n", " DOMAIN_MAX 2 2 2\n", " LUT_3D_SIZE 99\n", "\tDOMAIN_MIN 1 1 1\n", "DOMAIN_MAX\n", "TITLE \"x\"\n", "# a b\n", "1.0 2.0\n", "a b c\n"] {
        let t = format!("{}{}", stray, body);
        let lut = parse_cube(t.as_bytes()).unwrap();
        assert_eq!(lut.lut, plain.lut, "{:?}", stray);
        assert_eq!(lut.lutsize, 2);
    }
    // A stray line keeps the outcome of a text that gives no table.
    assert_eq!(parse_cube(b"").unwrap_err(), LutError::InvalidLutSize);
    assert_eq!(parse_cube(b" DOMAIN_MAX").unwrap_err(), LutError::InvalidLutSize);
    // DOMAIN_MIN with a tab instead of a space is another DOMAIN_ line: skipped.
    let t = format!("DOMAIN_MIN\t1 1 1\n{}", body);
    assert_eq!(parse_cube(t.as_bytes()).unwrap().lut, plain.lut);
}

#[test]
fn reads_grid_red_fastest() {
    let t = cube_text(2, &identity_rows(2));
    let lut = parse_cube(t.as_bytes()).unwrap();
    assert_eq!(lut.lutsize, 2);
    assert_eq!(lut.lut.len(), 8);
    assert_eq!(lut.get(0, 0, 0), rgb(0, 0, 0));
    assert_eq!(lut.get(1, 0, 0), rgb(ONE, 0, 0));
    assert_eq!(lut.get(0, 1, 0), rgb(0, ONE, 0));
    assert_eq!(lut.get(0, 0, 1), rgb(0, 0, ONE));
    assert_eq!(lut.get(1, 1, 1), rgb(ONE, ONE, ONE));
}

#[test]
fn round_trip_sequential_rows() {
    let n = 3usize;
    let rows: Vec<(f64, f64, f64)> = (0..n * n * n)
        .map(|m| (m as f64 / 100.0, (m + 100) as f64 / 1000.0, -(m as f64) / 10.0))
        .collect();
    let lut = parse_cube(cube_text(n, &rows).as_bytes()).unwrap();
    for k in 0..n {
        for j in 0..n {
            for i in 0..n {
                let m = (i + n * j + n * n * k) as i64;
                assert_eq!(lut.get(i, j, k), rgb(m * 10_000, (m + 100) * 1_000, -m * 100_000));
            }
        }
    }
}

#[test]
fn skips_comments_and_titles() {
    let t = "# made by hand\nTITLE \"warm look\"\nLUT_3D_SIZE 2\r\n\n0 0 0\r\n1 0 0\nnot a row\n0 1 0\n1 1 0\n0 0 1\n1 0 1\n0 1 1\n1 1 1";
    let lut = parse_cube(t.as_bytes()).unwrap();
    assert_eq!(lut.get(1, 1, 0), rgb(ONE, ONE, 0));
    assert_eq!(lut.get(1, 1, 1), rgb(ONE, ONE, ONE));
}

#[test]
fn extra_rows_are_ignored() {
    let mut rows = identity_rows(2);
    rows.push((0.5, 0.5, 0.5));
    let lut = parse_cube(cube_text(2, &rows).as_bytes()).unwrap();
    assert_eq!(lut.lut.len(), 8);
}

#[test]
fn domain_scales_values() {
    let t = format!("DOMAIN_MIN 0 0 0\nDOMAIN_MAX 2 1 0.5\n{}", cube_text(2, &identity_rows(2)));
    let lut = parse_cube(t.as_bytes()).unwrap();
    assert_eq!(lut.get(1, 1, 1), rgb(2 * ONE, ONE, ONE / 2));
    // The lower bound only enters through the extent; it is not added back.
    let t = format!("DOMAIN_MIN 0.5 0 0\nDOMAIN_MAX 1 1 1\n{}", cube_text(2, &identity_rows(2)));
    let lut = parse_cube(t.as_bytes()).unwrap();
    assert_eq!(lut.get(1, 0, 0), rgb(ONE / 2, 0, 0));
    let t = format!("DOMAIN_MIN 1 1 1\nDOMAIN_MAX 0 0 0\n{}", cube_text(2, &identity_rows(2)));
    let lut = parse_cube(t.as_bytes()).unwrap();
    assert_eq!(lut.get(1, 1, 1), rgb(-ONE, -ONE, -ONE));
}

#[test]
fn negative_products_round_down() {
    let t = "LUT_3D_SIZE 2\nDOMAIN_MAX 0.5 1 1\n-0.000001 0 0\n0 0 0\n0 0 0\n0 0 0\n0 0 0\n0 0 0\n0 0 0\n0 0 0\n";
    let lut = parse_cube(t.as_bytes()).unwrap();
    assert_eq!(lut.get(0, 0, 0), rgb(-1, 0, 0));
}

#[test]
fn invalid_sizes() {
    let rows = identity_rows(2);
    let body: String = cube_text(2, &rows).lines().skip(1).map(|l| format!("{}\n", l)).collect();
    for head in ["LUT_3D_SIZE 1\n", "LUT_3D_SIZE 66\n", "LUT_3D_SIZE abc\n", "LUT_3D_SIZE\n", "LUT_3D_SIZE 2 2\n", ""] {
        let t = format!("{}{}", head, body);
        assert_eq!(parse_cube(t.as_bytes()).unwrap_err(), LutError::InvalidLutSize, "{:?}", head);
    }
    let t = format!("LUT_3D_SIZE 65\nLUT_3D_SIZE 0\n{}", body);
    assert_eq!(parse_cube(t.as_bytes()).unwrap_err(), LutError::InvalidLutSize);
}

#[test]
fn largest_size_is_accepted() {
    let t = cube_text(65, &identity_rows(65));
    let lut = parse_cube(t.as_bytes()).unwrap();
    assert_eq!(lut.lutsize, 65);
    assert_eq!(lut.lut.len(), 65 * 65 * 65);
    assert_eq!(lut.get(64, 32, 0), rgb(ONE, ONE / 2, 0));
}

#[test]
fn truncated_data() {
    let mut rows = identity_rows(2);
    rows.pop();
    assert_eq!(parse_cube(cube_text(2, &rows).as_bytes()).unwrap_err(), LutError::LutDataTruncated);
    assert_eq!(parse_cube(b"LUT_3D_SIZE 2\n").unwrap_err(), LutError::LutDataTruncated);
}

#[test]
fn malformed_domain() {
    let t = format!("DOMAIN_MAX 1 1\n{}", cube_text(2, &identity_rows(2)));
    assert_eq!(parse_cube(t.as_bytes()).unwrap_err(), LutError::InvalidDomain);
    let t = format!("DOMAIN_MIN a b c\n{}", cube_text(2, &identity_rows(2)));
    assert_eq!(parse_cube(t.as_bytes()).unwrap_err(), LutError::InvalidDomain);
    // Other DOMAIN_ directives are skipped.
    let t = format!("DOMAIN_OTHER 1 1 1\n{}", cube_text(2, &identity_rows(2)));
    assert!(parse_cube(t.as_bytes()).is_ok());
}
