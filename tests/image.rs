use rtow::decimal::{push_decimal, read_uint};
use rtow::ppm::PPMImage;

fn written(img: &PPMImage<(u16, u16, u16)>) -> String {
    let mut out = Vec::new();
    img.write(&mut out);
    String::from_utf8(out).unwrap()
}

#[test]
fn new_image_is_filled() {
    let img = PPMImage::new(3, 2, 7u32);
    assert_eq!(img.width(), 3);
    assert_eq!(img.height(), 2);
    assert_eq!(img.pixel_count(), 6);
    for y in 0..2 {
        for x in 0..3 {
            assert_eq!(img.index(x, y), 7);
        }
    }
}

#[test]
fn set_changes_one_pixel() {
    let mut img = PPMImage::new(3, 2, 0u32);
    img.set(2, 1, 9);
    assert_eq!(img.index(2, 1), 9);
    assert_eq!(img.index(1, 1), 0);
    assert_eq!(img.index(2, 0), 0);
}

#[test]
fn empty_image() {
    let img = PPMImage::new(0, 0, (0u16, 0u16, 0u16));
    assert_eq!(img.pixel_count(), 0);
    assert_eq!(written(&img), "P3\n0 0\n255\n");
}

#[test]
fn encodes_two_by_two_top_row_first() {
    // Channel values after averaging and gamma correction.
    let mut img = PPMImage::new(2, 2, (0u16, 0u16, 0u16));
    img.set(0, 0, (10, 20, 30));
    img.set(1, 0, (40, 50, 60));
    img.set(0, 1, (70, 80, 90));
    img.set(1, 1, (255, 0, 127));
    assert_eq!(
        written(&img),
        "P3\n2 2\n255\n70 80 90\n255 0 127\n10 20 30\n40 50 60\n"
    );
}

#[test]
fn encodes_one_row() {
    let mut img = PPMImage::new(3, 1, (0u16, 0u16, 0u16));
    img.set(1, 0, (1, 2, 3));
    assert_eq!(written(&img), "P3\n3 1\n255\n0 0 0\n1 2 3\n0 0 0\n");
}

#[test]
fn write_appends() {
    let img = PPMImage::new(1, 1, (5u16, 6u16, 7u16));
    let mut out = b"xy".to_vec();
    img.write(&mut out);
    assert_eq!(out, b"xyP3\n1 1\n255\n5 6 7\n".to_vec());
}

#[test]
fn decimal_digits() {
    let mut out = Vec::new();
    push_decimal(&mut out, 0);
    out.push(b' ');
    push_decimal(&mut out, 1234567);
    out.push(b' ');
    push_decimal(&mut out, u64::MAX);
    assert_eq!(String::from_utf8(out).unwrap(), "0 1234567 18446744073709551615");
}

#[test]
fn reads_numbers() {
    assert_eq!(read_uint(b"123 4", 0, 1000), Some((3, 123)));
    assert_eq!(read_uint(b"123 4", 4, 1000), Some((5, 4)));
    assert_eq!(read_uint(b"0042x", 0, 100), Some((4, 42)));
    assert_eq!(read_uint(b"256", 0, 255), None);
    assert_eq!(read_uint(b"255", 0, 255), Some((3, 255)));
    assert_eq!(read_uint(b" 1", 0, 255), None);
    assert_eq!(read_uint(b"", 0, 255), None);
    assert_eq!(read_uint(b"18446744073709551616", 0, u64::MAX), None);
}
