use epic_drawing_backend::linking::Component;
use epic_drawing_backend::picture::{visualize_components, visualize_dropped_components, RgbImage};
use epic_drawing_backend::raster::GrayImage;

#[test]
fn black_picture_and_pixels() {
    let mut img = RgbImage::black(3, 2);
    assert_eq!(img.dimensions(), (3, 2));
    assert_eq!(img.as_raw().len(), 18);
    assert!(img.as_raw().iter().all(|&v| v == 0));
    img.put_pixel(2, 1, (1, 2, 3));
    assert_eq!(img.get_pixel(2, 1), (1, 2, 3));
    assert_eq!(img.get_pixel(1, 1), (0, 0, 0));
    assert_eq!(&img.as_raw()[15..18], &[1, 2, 3]);
}

#[test]
fn rgb_from_raw_checks_the_length() {
    assert!(RgbImage::from_raw(2, 2, vec![0; 12]).is_some());
    assert!(RgbImage::from_raw(2, 2, vec![0; 11]).is_none());
    let img = RgbImage::from_raw(1, 2, vec![9, 8, 7, 6, 5, 4]).unwrap();
    assert_eq!(img.get_pixel(0, 1), (6, 5, 4));
}

#[test]
fn selection_picture_colours() {
    let edges = GrayImage::new(4, 3);
    let largest = vec![(0, 0), (1, 0), (2, 1)];
    let dropped = vec![vec![(3, 2)], vec![(1, 0)]];
    let picture = visualize_dropped_components(&edges, &largest, &dropped);
    assert_eq!(picture.dimensions(), (4, 3));
    assert_eq!(picture.get_pixel(0, 0), (0, 255, 0));
    assert_eq!(picture.get_pixel(2, 1), (0, 255, 0));
    assert_eq!(picture.get_pixel(3, 2), (255, 0, 0));
    assert_eq!(picture.get_pixel(1, 0), (255, 0, 0));
    assert_eq!(picture.get_pixel(3, 0), (0, 0, 0));
}

#[test]
fn stroke_picture_draws_circles_in_palette_colours() {
    let edges = GrayImage::new(9, 9);
    let components = vec![
        Component {
            points: vec![(2, 2)],
        },
        Component {
            points: vec![(6, 6), (7, 6)],
        },
    ];
    let picture = visualize_components(&edges, &components);
    assert_eq!(picture.dimensions(), (9, 9));
    assert_eq!(picture.get_pixel(2, 2), (255, 0, 0));
    assert_eq!(picture.get_pixel(6, 6), (0, 255, 0));
    assert_eq!(picture.get_pixel(7, 6), (0, 255, 0));
    assert_eq!(picture.get_pixel(0, 0), (0, 0, 0));
    assert_eq!(picture.get_pixel(4, 4), (0, 0, 0));
    assert_eq!(picture.get_pixel(8, 0), (0, 0, 0));
}

#[test]
fn stroke_picture_has_the_edge_map_size() {
    let edges = GrayImage::new(7, 4);
    let empty = visualize_components(&edges, &vec![]);
    assert_eq!(empty.dimensions(), (7, 4));
    assert!(empty.as_raw().iter().all(|&v| v == 0));
    let far = visualize_components(
        &edges,
        &vec![Component {
            points: vec![(-100, 2000), (2_000_000_000, -5)],
        }],
    );
    assert_eq!(far.dimensions(), (7, 4));
    assert!(far.as_raw().iter().all(|&v| v == 0));
}
