use rtow::parser::{PPMImage, ParseError};
use rtow::ppm;

#[test]
fn parses_p3() {
    let img = PPMImage::parse(b"P3\n2 1\n255\n1 2 3\n4 5 6\n").unwrap();
    assert_eq!(img.width, 2);
    assert_eq!(img.height, 1);
    assert_eq!(img.max, 255);
    assert_eq!(img.pixels, vec![(1, 2, 3), (4, 5, 6)]);
    assert_eq!(img.index(1, 0), (4, 5, 6));
}

#[test]
fn parses_any_whitespace_and_ignores_the_rest() {
    let img = PPMImage::parse(b"P3 \t\r\n2\t2  65535\n\n0 0 0 1 1 1\r\n2 2 2\t3 3 3 trailing").unwrap();
    assert_eq!((img.width, img.height, img.max), (2, 2, 65535));
    assert_eq!(img.pixels, vec![(0, 0, 0), (1, 1, 1), (2, 2, 2), (3, 3, 3)]);
    assert_eq!(img.index(0, 1), (2, 2, 2));
}

#[test]
fn magic_errors() {
    assert_eq!(PPMImage::parse(b"P").unwrap_err(), ParseError::MissingMagic);
    assert_eq!(PPMImage::parse(b"").unwrap_err(), ParseError::MissingMagic);
    assert_eq!(PPMImage::parse(b"P5\n1 1\n255\n").unwrap_err(), ParseError::UnknownMagic);
    assert_eq!(PPMImage::parse(b"P6\n1 1\n255\n").unwrap_err(), ParseError::UnsupportedBinary);
}

#[test]
fn number_errors() {
    assert_eq!(PPMImage::parse(b"P3\nx 1\n255\n").unwrap_err(), ParseError::BadNumber(3));
    assert_eq!(PPMImage::parse(b"P3 4294967296 1 255\n").unwrap_err(), ParseError::BadNumber(3));
    // A channel above u16::MAX.
    assert_eq!(PPMImage::parse(b"P3 1 1 255 65536 0 0\n").unwrap_err(), ParseError::BadNumber(11));
    // Too few pixels.
    assert_eq!(PPMImage::parse(b"P3 2 1 255 1 2 3\n").unwrap_err(), ParseError::BadNumber(17));
}

#[test]
fn whitespace_errors() {
    assert_eq!(PPMImage::parse(b"P3 1,1 255\n").unwrap_err(), ParseError::MissingSpace(4));
    // The last channel must be followed by whitespace.
    assert_eq!(PPMImage::parse(b"P3 1 1 255 1 2 3").unwrap_err(), ParseError::MissingSpace(16));
}

#[test]
fn zero_sized_image() {
    let img = PPMImage::parse(b"P3\n0 7\n255\n").unwrap();
    assert_eq!((img.width, img.height), (0, 7));
    assert!(img.pixels.is_empty());
}

#[test]
fn written_image_reads_back() {
    let mut img = ppm::PPMImage::new(3, 2, (0u16, 0u16, 0u16));
    img.set(0, 0, (1, 2, 3));
    img.set(2, 0, (65535, 0, 9));
    img.set(1, 1, (255, 128, 64));
    let mut out = Vec::new();
    img.write(&mut out);
    let back = PPMImage::parse(&out).unwrap();
    assert_eq!((back.width, back.height, back.max), (3, 2, 255));
    // Row y = 1 comes first in the file.
    assert_eq!(
        back.pixels,
        vec![(0, 0, 0), (255, 128, 64), (0, 0, 0), (1, 2, 3), (0, 0, 0), (65535, 0, 9)]
    );
    for y in 0..2 {
        for x in 0..3 {
            assert_eq!(back.index(x, 1 - y), img.index(x, y));
        }
    }
}
