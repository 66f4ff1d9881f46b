use raw::cube::LutError;
use raw::pipeline::{apply_color_table, output_format, OutputFormat};
use raw::schemas::Lut;

fn photo(width: usize, height: usize) -> Vec<u8> {
    (0..width * height * 3).map(|i| ((i * 7 + i / 3) % 256) as u8).collect()
}

#[test]
fn no_table_is_bit_identical() {
    let img = photo(800, 600);
    let out = apply_color_table(img.clone(), 800, 3, None).unwrap();
    assert_eq!(out, img);
}

#[test]
fn identity_table_is_bit_identical() {
    let cube = b"LUT_3D_SIZE 2\n0 0 0\n1 0 0\n0 1 0\n1 1 0\n0 0 1\n1 0 1\n0 1 1\n1 1 1\n";
    let img = photo(40, 30);
    let out = apply_color_table(img.clone(), 40, 3, Some(&cube[..])).unwrap();
    assert_eq!(out, img);
}

#[test]
fn unreadable_table_stops() {
    let img = photo(4, 3);
    assert_eq!(apply_color_table(img.clone(), 4, 3, Some(&b"LUT_3D_SIZE 70\n"[..])), Err(LutError::InvalidLutSize));
    assert_eq!(apply_color_table(img, 4, 3, Some(&b"LUT_3D_SIZE 2\n0 0 0\n"[..])), Err(LutError::LutDataTruncated));
}

#[test]
fn catalog_lut_fields() {
    let l = Lut { id: 7, lut_name: "warm".to_string(), path: "/luts/warm.cube".to_string(), comment: "soft".to_string() };
    assert_eq!(*l.id(), 7);
    assert_eq!(l.lut_name(), "warm");
    assert_eq!(l.path(), "/luts/warm.cube");
    assert_eq!(l.comment(), "soft");
    let d = Lut::default();
    assert_eq!(*d.id(), 0);
    assert_eq!(d.lut_name(), "");
}

#[test]
fn output_format_by_extension() {
    assert_eq!(output_format(b"out/photo.webp"), OutputFormat::Webp);
    assert_eq!(output_format(b"photo.jpg"), OutputFormat::Jpeg);
    assert_eq!(output_format(b"a.b.jpg"), OutputFormat::Jpeg);
    assert_eq!(output_format(b"photo.jpeg"), OutputFormat::Other);
    assert_eq!(output_format(b"photo.JPG"), OutputFormat::Other);
    assert_eq!(output_format(b"webp"), OutputFormat::Webp);
    assert_eq!(output_format(b"photo.webp.png"), OutputFormat::Other);
    assert_eq!(output_format(b"photo."), OutputFormat::Other);
    assert_eq!(output_format(b""), OutputFormat::Other);
}
