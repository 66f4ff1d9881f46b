use raw::tone::{apply_exp_correction, curve_kind, CurveKind};

#[test]
fn table_remaps_each_sample() {
    let table: Vec<u8> = (0..=255u8).map(|v| 255 - v).collect();
    let mut img = vec![0u8, 1, 128, 255];
    apply_exp_correction(&mut img, &table);
    assert_eq!(img, vec![255u8, 254, 127, 0]);
}

#[test]
fn identity_table_keeps_image() {
    let table: Vec<u8> = (0..=255u8).collect();
    let mut img: Vec<u8> = (0..=255u8).rev().collect();
    let before = img.clone();
    apply_exp_correction(&mut img, &table);
    assert_eq!(img, before);
    let mut empty: Vec<u8> = Vec::new();
    apply_exp_correction(&mut empty, &table);
    assert!(empty.is_empty());
}

#[test]
fn curve_selector() {
    assert_eq!(curve_kind(b"gamma"), CurveKind::Gamma);
    assert_eq!(curve_kind(b"linear"), CurveKind::Linear);
    assert_eq!(curve_kind(b"Gamma"), CurveKind::Linear);
    assert_eq!(curve_kind(b"gammas"), CurveKind::Linear);
    assert_eq!(curve_kind(b""), CurveKind::Linear);
}
