use epic_drawing_backend::morphology::{count_transitions, morphological_close, skeletonize};
use epic_drawing_backend::raster::GrayImage;

fn filled_block(width: u32, height: u32, xs: std::ops::Range<u32>, ys: std::ops::Range<u32>) -> GrayImage {
    let mut img = GrayImage::new(width, height);
    for x in xs {
        for y in ys.clone() {
            img.put_pixel(x, y, 255);
        }
    }
    img
}

#[test]
fn test_skeletonize_simple_line() {
    let mut img = GrayImage::new(10, 10);
    for x in 2..8 {
        for y in 4..7 {
            img.put_pixel(x, y, 255);
        }
    }

    let skeleton = skeletonize(&img);

    let height_count = (0..10).filter(|&y| skeleton.get_pixel(5, y) > 0).count();
    assert!(height_count <= 2);
}

#[test]
fn test_morphological_close_bridges_gap() {
    let mut img = GrayImage::new(10, 10);
    img.put_pixel(3, 5, 255);
    img.put_pixel(5, 5, 255);

    let closed = morphological_close(&img, 1);
    assert!(closed.get_pixel(4, 5) > 0);
}

#[test]
fn test_close_zero_iterations() {
    let img = GrayImage::new(10, 10);
    let result = morphological_close(&img, 0);
    assert_eq!(img.dimensions(), result.dimensions());
}

#[test]
fn closing_keeps_every_white_pixel() {
    let mut img = GrayImage::new(12, 9);
    for &(x, y) in &[(0, 0), (3, 5), (5, 5), (11, 8), (7, 2)] {
        img.put_pixel(x, y, 200);
    }
    let closed = morphological_close(&img, 2);
    for y in 0..9 {
        for x in 0..12 {
            if img.get_pixel(x, y) > 0 {
                assert!(closed.get_pixel(x, y) > 0);
            }
        }
    }
    assert_eq!(closed.dimensions(), (12, 9));
}

#[test]
fn closing_zero_iterations_copies_pixels() {
    let img = filled_block(6, 4, 1..3, 1..2);
    let result = morphological_close(&img, 0);
    assert_eq!(result.as_raw(), img.as_raw());
}

#[test]
fn closing_fills_a_one_pixel_hole() {
    let mut img = filled_block(7, 7, 1..6, 1..6);
    img.put_pixel(3, 3, 0);
    let closed = morphological_close(&img, 1);
    assert_eq!(closed.get_pixel(3, 3), 255);
}

#[test]
fn skeleton_only_removes_pixels_and_is_stable() {
    let img = filled_block(12, 12, 2..10, 3..8);
    let skeleton = skeletonize(&img);
    assert_eq!(skeleton.dimensions(), img.dimensions());
    let mut kept = 0;
    for y in 0..12 {
        for x in 0..12 {
            if skeleton.get_pixel(x, y) > 0 {
                assert!(img.get_pixel(x, y) > 0);
                kept += 1;
            }
        }
    }
    assert!(kept > 0);
    assert!(kept < 40);
    let again = skeletonize(&skeleton);
    assert_eq!(again.as_raw(), skeleton.as_raw());
}

#[test]
fn skeleton_of_thin_line_is_itself() {
    let img = filled_block(10, 5, 1..9, 2..3);
    let skeleton = skeletonize(&img);
    assert_eq!(skeleton.as_raw(), img.as_raw());
}

#[test]
fn skeleton_of_empty_and_tiny_images() {
    let empty = GrayImage::new(0, 1);
    assert_eq!(skeletonize(&empty).dimensions(), (0, 1));
    let tiny = filled_block(2, 2, 0..2, 0..2);
    assert_eq!(skeletonize(&tiny).as_raw(), tiny.as_raw());
}

#[test]
fn transitions_counted_round_the_ring() {
    assert_eq!(count_transitions(&[false; 8]), 0);
    assert_eq!(count_transitions(&[true; 8]), 0);
    assert_eq!(
        count_transitions(&[false, true, false, true, false, false, false, false]),
        2
    );
    assert_eq!(
        count_transitions(&[true, false, false, false, false, false, false, false]),
        1
    );
    assert_eq!(
        count_transitions(&[true, false, true, false, true, false, true, false]),
        4
    );
}
