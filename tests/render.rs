use rtow::ppm::PPMImage;
use rtow::render::{column_ranges, Collector};

#[test]
fn ranges_cut_evenly() {
    assert_eq!(column_ranges(6, 3), vec![(0, 3), (3, 6)]);
}

#[test]
fn ranges_last_is_shorter() {
    assert_eq!(column_ranges(7, 3), vec![(0, 3), (3, 6), (6, 7)]);
    assert_eq!(column_ranges(5, 2), vec![(0, 2), (2, 4), (4, 5)]);
}

#[test]
fn ranges_of_nothing() {
    assert!(column_ranges(0, 4).is_empty());
}

#[test]
fn ranges_chunk_wider_than_image() {
    assert_eq!(column_ranges(3, 10), vec![(0, 3)]);
}

#[test]
fn ranges_halves_of_render_width() {
    let r = column_ranges(400, 200);
    assert_eq!(r, vec![(0, 200), (200, 400)]);
    let r = column_ranges(401, 200);
    assert_eq!(r, vec![(0, 200), (200, 400), (400, 401)]);
}

#[test]
fn ranges_near_usize_max() {
    let r = column_ranges(usize::MAX, usize::MAX / 2 + 1);
    assert_eq!(r, vec![(0, usize::MAX / 2 + 1), (usize::MAX / 2 + 1, usize::MAX)]);
}

#[test]
fn collector_completes_after_every_pixel() {
    let mut c = Collector::new(PPMImage::new(2, 2, 0u32));
    assert!(!c.is_complete());
    assert!(!c.receive(1, 0, 10));
    assert!(!c.receive(0, 1, 20));
    assert!(!c.receive(0, 0, 30));
    assert!(c.receive(1, 1, 40));
    assert!(c.is_complete());
    let img = c.into_image();
    assert_eq!(img.index(0, 0), 30);
    assert_eq!(img.index(1, 0), 10);
    assert_eq!(img.index(0, 1), 20);
    assert_eq!(img.index(1, 1), 40);
}

#[test]
fn collector_of_empty_image_is_complete() {
    let c = Collector::new(PPMImage::new(0, 3, 0u8));
    assert!(c.is_complete());
}
