use epic_drawing_backend::contour::{find_linked_contours, find_linked_contours_with_image, is_connector};
use epic_drawing_backend::linking::{
    bridge_and_walk, bridge_gaps, find_all_components, find_all_components_raw,
    find_endpoints_on_image, walk_contour,
};
use epic_drawing_backend::bridging::count_neighbors_on_image;
use epic_drawing_backend::pipeline::{
    load_working_image, resize_to_working_size, sample_indices, trace_edges, WORKING_SIZE,
};
use epic_drawing_backend::raster::GrayImage;
use epic_drawing_backend::tracing::trace_path;
use epic_drawing_backend::walk::squared_bridge_distance;

fn image_with(width: u32, height: u32, pixels: &[(u32, u32)]) -> GrayImage {
    let mut img = GrayImage::new(width, height);
    for &(x, y) in pixels {
        img.put_pixel(x, y, 255);
    }
    img
}

fn two_segments() -> GrayImage {
    let mut pixels = Vec::new();
    for x in 0..4 {
        pixels.push((x, 5));
    }
    for x in 5..9 {
        pixels.push((x, 5));
    }
    image_with(12, 10, &pixels)
}

#[test]
fn endpoints_found_in_row_major_order() {
    let img = two_segments();
    assert_eq!(
        find_endpoints_on_image(&img),
        vec![(0, 5), (3, 5), (5, 5), (8, 5)]
    );
    assert_eq!(count_neighbors_on_image(&img, 1, 5), 2);
    assert_eq!(count_neighbors_on_image(&img, 0, 5), 1);
    assert_eq!(count_neighbors_on_image(&img, 4, 5), 2);
    assert_eq!(count_neighbors_on_image(&img, 11, 9), 0);
}

#[test]
fn bridging_joins_the_closest_gap_once() {
    let mut img = two_segments();
    let drawn = bridge_gaps(&mut img, 25, 5);
    assert_eq!(drawn, 1);
    assert_eq!(img.get_pixel(4, 5), 255);
    assert_eq!(find_endpoints_on_image(&img), vec![(0, 5), (8, 5)]);
}

#[test]
fn bridging_respects_budget_and_distance() {
    let mut img = two_segments();
    assert_eq!(bridge_gaps(&mut img, 25, 0), 0);
    assert_eq!(img.get_pixel(4, 5), 0);
    let mut img = two_segments();
    assert_eq!(bridge_gaps(&mut img, 3, 10), 0);
    assert_eq!(img.get_pixel(4, 5), 0);
}

#[test]
fn bridging_only_adds_pixels() {
    let before = image_with(9, 9, &[(1, 1), (2, 2), (3, 3), (6, 6), (7, 6), (8, 6), (1, 7)]);
    let mut img = image_with(9, 9, &[(1, 1), (2, 2), (3, 3), (6, 6), (7, 6), (8, 6), (1, 7)]);
    let drawn = bridge_gaps(&mut img, 100, 3);
    assert!(drawn <= 3);
    for y in 0..9 {
        for x in 0..9 {
            if before.get_pixel(x, y) > 0 {
                assert!(img.get_pixel(x, y) > 0);
            }
        }
    }
}

#[test]
fn components_ordered_largest_first() {
    let img = image_with(
        8,
        8,
        &[(0, 0), (1, 0), (6, 0), (6, 1), (6, 2), (6, 3), (3, 6)],
    );
    let selection = find_all_components_raw(&img);
    assert_eq!(selection.largest.len(), 4);
    assert_eq!(selection.largest[0], (6, 0));
    assert_eq!(selection.dropped.len(), 2);
    assert_eq!(selection.dropped[0].len(), 2);
    assert_eq!(selection.dropped[1], vec![(3, 6)]);
}

#[test]
fn components_of_empty_image() {
    let img = GrayImage::new(5, 5);
    let selection = find_all_components_raw(&img);
    assert!(selection.largest.is_empty());
    assert!(selection.dropped.is_empty());
    assert!(walk_contour(&img).is_empty());
}

#[test]
fn components_are_a_partition() {
    let pixels = [(0, 0), (1, 1), (4, 4), (5, 4), (0, 4), (9, 9), (8, 8)];
    let img = image_with(10, 10, &pixels);
    let selection = find_all_components_raw(&img);
    let mut all: Vec<(u32, u32)> = selection.largest.clone();
    for c in &selection.dropped {
        all.extend(c.iter().copied());
    }
    all.sort();
    let mut expected = pixels.to_vec();
    expected.sort();
    assert_eq!(all, expected);
}

#[test]
fn walk_follows_an_l_shape_from_its_end() {
    let img = image_with(6, 6, &[(1, 1), (2, 1), (3, 1), (3, 2), (3, 3)]);
    assert_eq!(
        walk_contour(&img),
        vec![(1, 1), (2, 1), (3, 1), (3, 2), (3, 3)]
    );
}

#[test]
fn walk_prefers_the_straight_continuation() {
    let img = image_with(7, 7, &[(0, 0), (1, 1), (2, 2), (3, 3), (4, 4), (3, 1)]);
    assert_eq!(
        walk_contour(&img),
        vec![(0, 0), (1, 1), (2, 2), (3, 3), (4, 4)]
    );
}

#[test]
fn walk_visits_distinct_adjacent_pixels() {
    let img = image_with(
        8,
        8,
        &[(1, 1), (2, 1), (3, 2), (4, 3), (4, 4), (3, 5), (2, 5), (1, 4), (1, 3), (1, 2)],
    );
    let path = walk_contour(&img);
    assert_eq!(path.len(), 10);
    for w in path.windows(2) {
        assert!((w[0].0 - w[1].0).abs() <= 1 && (w[0].1 - w[1].1).abs() <= 1);
    }
    let mut sorted = path.clone();
    sorted.sort();
    sorted.dedup();
    assert_eq!(sorted.len(), path.len());
}

#[test]
fn squared_distance_of_bridges() {
    assert_eq!(squared_bridge_distance(5), 25);
    assert_eq!(squared_bridge_distance(0), 0);
    assert_eq!(squared_bridge_distance(100), 10000);
}

#[test]
fn bridge_and_walk_joins_the_segments() {
    let mut img = two_segments();
    let path = bridge_and_walk(&mut img, 5, 50);
    assert_eq!(path.len(), 9);
    assert_eq!(path[0], (0, 5));
    assert_eq!(path[8], (8, 5));
}

#[test]
fn linked_contours_leave_input_untouched() {
    let img = two_segments();
    let contour = find_linked_contours(&img, 5, 50);
    assert_eq!(contour.len(), 9);
    assert_eq!(img.get_pixel(4, 5), 0);
    let (bridged, contour2) = find_linked_contours_with_image(&img, 5, 50);
    assert_eq!(bridged.get_pixel(4, 5), 255);
    assert_eq!(contour2, contour);
}

#[test]
fn traced_strokes_skip_small_components() {
    let img = image_with(
        10,
        10,
        &[(1, 1), (2, 1), (3, 1), (4, 1), (8, 8), (7, 7), (0, 9)],
    );
    let strokes = find_all_components(&img, 2);
    assert_eq!(strokes.len(), 2);
    assert_eq!(strokes[0].points, vec![(1, 1), (2, 1), (3, 1), (4, 1)]);
    assert_eq!(strokes[1].points.len(), 2);
    assert_eq!(strokes[1].points, vec![(7, 7), (8, 8)]);
    let all = find_all_components(&img, 0);
    assert_eq!(all.len(), 3);
    assert_eq!(all[2].points, vec![(0, 9)]);
}

#[test]
fn traced_stroke_covers_a_branching_region() {
    let img = image_with(7, 7, &[(1, 3), (2, 3), (3, 3), (4, 3), (5, 3), (3, 1), (3, 2), (3, 4), (3, 5)]);
    let strokes = find_all_components(&img, 1);
    assert_eq!(strokes.len(), 1);
    let mut pts = strokes[0].points.clone();
    assert_eq!(pts.len(), 9);
    assert_eq!(pts[0], (3, 1));
    pts.sort();
    pts.dedup();
    assert_eq!(pts.len(), 9);
}

#[test]
fn trace_edges_closes_the_bridged_contour() {
    let trace = trace_edges(&two_segments(), 5, 50);
    assert_eq!(trace.skeleton.as_raw(), two_segments().as_raw());
    assert_eq!(trace.bridges, 1);
    assert_eq!(trace.bridged.get_pixel(4, 5), 255);
    assert_eq!(trace.selection.largest.len(), 9);
    assert!(trace.selection.dropped.is_empty());
    assert_eq!(trace.contour.len(), 18);
    assert_eq!(trace.contour[0], (0, 5));
    assert_eq!(*trace.contour.last().unwrap(), (0, 5));
}

#[test]
fn sample_indices_spread_evenly() {
    assert_eq!(sample_indices(10, 4), vec![0, 2, 5, 7]);
    assert_eq!(sample_indices(3, 5), vec![0, 0, 1, 1, 2]);
    assert_eq!(sample_indices(0, 0), Vec::<usize>::new());
    assert_eq!(sample_indices(7, 7), vec![0, 1, 2, 3, 4, 5, 6]);
}

#[test]
fn connector_positions() {
    let boundaries = vec![2, 5, 9];
    assert!(!is_connector(&boundaries, 1));
    assert!(is_connector(&boundaries, 2));
    assert!(is_connector(&boundaries, 5));
    assert!(is_connector(&boundaries, 8));
    assert!(!is_connector(&boundaries, 9));
    assert!(!is_connector(&vec![4], 4));
}

#[test]
fn resizing_reaches_the_working_square() {
    let small = image_with(10, 6, &[(2, 2), (3, 3)]);
    let resized = resize_to_working_size(&small);
    assert_eq!(resized.dimensions(), (WORKING_SIZE, WORKING_SIZE));
    assert_eq!(resized.as_raw().len(), 512 * 512);
    let mut full = GrayImage::new(512, 512);
    full.put_pixel(100, 200, 255);
    full.put_pixel(511, 0, 17);
    let same = resize_to_working_size(&full);
    assert_eq!(same.as_raw(), full.as_raw());
    let empty = GrayImage::new(0, 3);
    assert!(resize_to_working_size(&empty).as_raw().iter().all(|&v| v == 0));
}

#[test]
fn components_depend_on_the_image_alone() {
    let pixels = [(1, 1), (2, 2), (2, 3), (5, 0), (6, 0), (0, 6)];
    let a = find_all_components_raw(&image_with(8, 8, &pixels));
    let b = find_all_components_raw(&image_with(8, 8, &pixels));
    assert_eq!(a.largest, b.largest);
    assert_eq!(a.dropped, b.dropped);
    assert_eq!(a.largest, vec![(1, 1), (2, 2), (2, 3)]);
}

#[test]
fn tracing_any_connected_pixel_list() {
    let img = GrayImage::new(6, 6);
    let pixels = vec![(3, 1), (1, 1), (2, 1), (4, 2)];
    let path = trace_path(&img, &pixels);
    assert_eq!(path, vec![(1, 1), (2, 1), (3, 1), (4, 2)]);
}

#[test]
fn tracing_starts_at_first_pixel_without_an_end() {
    let img = GrayImage::new(4, 4);
    let pixels = vec![(1, 1), (2, 1), (2, 2), (1, 2)];
    let path = trace_path(&img, &pixels);
    assert_eq!(path.len(), 4);
    assert_eq!(path[0], (1, 1));
    let mut sorted = path.clone();
    sorted.sort();
    assert_eq!(sorted, vec![(1, 1), (1, 2), (2, 1), (2, 2)]);
}

#[test]
fn tracing_a_disconnected_list_reaches_one_part() {
    let img = GrayImage::new(9, 9);
    let pixels = vec![(0, 0), (1, 0), (7, 7)];
    assert_eq!(trace_path(&img, &pixels), vec![(0, 0), (1, 0)]);
    assert!(trace_path(&img, &vec![]).is_empty());
}

#[test]
fn sample_indices_without_a_product_bound() {
    let len = usize::MAX / 2 + 1;
    let indices = sample_indices(len, 3);
    assert_eq!(indices.len(), 3);
    assert_eq!(indices[0], 0);
    assert_eq!(indices[1], len / 3);
    assert!(indices.iter().all(|&i| i < len));
}

fn png_bytes(width: u32, height: u32, pixels: Vec<u8>) -> Vec<u8> {
    let img = image::GrayImage::from_raw(width, height, pixels).unwrap();
    let mut bytes = std::io::Cursor::new(Vec::new());
    img.write_to(&mut bytes, image::ImageFormat::Png).unwrap();
    bytes.into_inner()
}

#[test]
fn loading_decodes_and_stretches() {
    let bytes = png_bytes(3, 2, vec![0, 10, 20, 30, 40, 255]);
    let (gray, working) = load_working_image(&bytes).unwrap();
    assert_eq!(gray.dimensions(), (3, 2));
    assert_eq!(gray.as_raw(), &vec![0, 10, 20, 30, 40, 255]);
    assert_eq!(working.dimensions(), (WORKING_SIZE, WORKING_SIZE));
    assert!(load_working_image(&[1, 2, 3, 4]).is_err());
}

#[test]
fn traced_contour_stays_inside_the_image() {
    let img = image_with(10, 10, &[(1, 1), (2, 2), (3, 3), (4, 3), (5, 3), (6, 4), (6, 5)]);
    let trace = trace_edges(&img, 5, 10);
    assert!(trace.contour.len() >= 2);
    assert_eq!(trace.contour[0], *trace.contour.last().unwrap());
    for &(x, y) in &trace.contour {
        assert!((0..10).contains(&x) && (0..10).contains(&y));
    }
}

#[test]
fn flood_fill_marks_the_component() {
    let img = image_with(6, 6, &[(1, 1), (2, 2), (4, 4)]);
    let mut visited = epic_drawing_backend::raster::PixelSet::for_image(&img);
    let pixels = epic_drawing_backend::components::flood_fill(&img, 1, 1, &mut visited);
    assert_eq!(pixels, vec![(1, 1), (2, 2)]);
    assert!(visited.contains(1, 1) && visited.contains(2, 2));
    assert!(!visited.contains(4, 4));
}
