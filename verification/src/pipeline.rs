//! The stage of the drawing pipeline that turns an edge map into a closed contour:
//! thinning, bridging, component selection, walking and closing.

use vstd::prelude::*;
use crate::bridging::{bridge_gaps, bridged};
use crate::components::{ComponentSelection, scanned_as, find_all_components_raw, selection_of};
use crate::line::{close_contour, closed_contour, lemma_closed_contour_within};
use crate::morphology::{skeletonize, skeleton_of, thinnable};
use crate::raster::GrayImage;
use crate::stable_sort::{contents, sort_by_len_desc};
use crate::walk::{bridge_distance_sq, contour_of, ipts, squared_bridge_distance, walk_contour};

verus! {

/// The side of the square the pipeline works at.
pub const WORKING_SIZE: u32 = 512;

/// Calls `image::imageops::resize` with `FilterType::Lanczos3`. Its source returns
/// a buffer of the requested size: a pixel-for-pixel copy when the size is
/// unchanged, an all-black one when the input has no pixels, and otherwise the
/// resampled image. The resampled pixels are left unsaid: the Lanczos kernel
/// calls `f32::sin`, whose last bits std leaves to the platform, so they are not
/// a function of the image and the size alone.
#[verifier::external_body]
fn resize_stretch(img: &GrayImage, width: u32, height: u32) -> (resized: GrayImage)
    requires
        img.wf(),
        1 <= width <= i32::MAX,
        1 <= height <= i32::MAX,
        width * height <= usize::MAX,
    ensures
        resized.wf(),
        resized@.width == width,
        resized@.height == height,
        img@.width == width && img@.height == height ==> resized@ == img@,
        img@.width == 0 || img@.height == 0 ==> forall|x: int, y: int|
            resized@.in_bounds(x, y) ==> #[trigger] resized@.at(x, y) == 0,
{
    let (w, h) = img.dimensions();
    let buffer = image::GrayImage::from_raw(w, h, img.as_raw().clone()).unwrap();
    let out = image::imageops::resize(&buffer, width, height, image::imageops::FilterType::Lanczos3);
    GrayImage::from_raw(width, height, out.into_raw()).unwrap()
}

/// Stretches the image to the working square, whatever its proportions.
pub fn resize_to_working_size(img: &GrayImage) -> (resized: GrayImage)
    requires
        img.wf(),
    ensures
        resized.wf(),
        resized@.width == WORKING_SIZE,
        resized@.height == WORKING_SIZE,
        img@.width == WORKING_SIZE && img@.height == WORKING_SIZE ==> resized@ == img@,
        img@.width == 0 || img@.height == 0 ==> forall|x: int, y: int|
            resized@.in_bounds(x, y) ==> #[trigger] resized@.at(x, y) == 0,
{
    resize_stretch(img, WORKING_SIZE, WORKING_SIZE)
}

#[verifier::external_type_specification]
#[verifier::external_body]
pub struct ExImageError(image::ImageError);

#[verifier::external_type_specification]
#[verifier::external_body]
pub struct ExDynamicImage(image::DynamicImage);

/// The width and height of the image `image::load_from_memory` decodes from the
/// bytes, or nothing when it cannot decode them.
pub uninterp spec fn decoded_size(bytes: Seq<u8>) -> Option<(int, int)>;

/// The width and height of a decoded image.
pub uninterp spec fn picture_size(image: image::DynamicImage) -> (int, int);

/// Calls `image::load_from_memory`, which guesses the format from the bytes and
/// decodes them. Whether it succeeds and the size it decodes follow from the bytes
/// (the format's header and data, checked against fixed allocation limits), so
/// they are named; the decoded pixels are not: the JPEG decoder picks its inverse
/// transform and colour conversion by the CPU features it detects when it runs.
#[verifier::external_body]
fn decode_image(image_bytes: &[u8]) -> (decoded: Result<image::DynamicImage, image::ImageError>)
    ensures
        decoded is Ok <==> decoded_size(image_bytes@) is Some,
        decoded matches Ok(d) ==> decoded_size(image_bytes@) == Some(picture_size(d)),
{
    image::load_from_memory(image_bytes)
}

/// Calls `image::DynamicImage::to_luma8`, which converts the decoded image to 8-bit
/// grayscale of the same size. Its pixels depend on an image the library cannot
/// look into, so only the buffer's shape is stated (the enabled formats, JPEG and
/// PNG, keep both sides within `i32`).
#[verifier::external_body]
fn to_luma(image: &image::DynamicImage) -> (gray: GrayImage)
    ensures
        gray.wf(),
        (gray@.width, gray@.height) == picture_size(*image),
{
    let luma = image.to_luma8();
    let (width, height) = luma.dimensions();
    GrayImage::from_raw(width, height, luma.into_raw()).unwrap()
}

/// Decodes encoded image bytes to grayscale and stretches the result to the
/// working square; gives both images, or the decoding error.
pub fn load_working_image(image_bytes: &[u8]) -> (loaded: Result<(GrayImage, GrayImage), image::ImageError>)
    ensures
        loaded is Ok <==> decoded_size(image_bytes@) is Some,
        loaded matches Ok((gray, _)) ==> decoded_size(image_bytes@) == Some(
            (gray@.width as int, gray@.height as int),
        ),
        loaded matches Ok((gray, working)) ==> {
            &&& gray.wf()
            &&& working.wf()
            &&& working@.width == WORKING_SIZE
            &&& working@.height == WORKING_SIZE
            &&& gray@.width == WORKING_SIZE && gray@.height == WORKING_SIZE ==> working@ == gray@
            &&& gray@.width == 0 || gray@.height == 0 ==> forall|x: int, y: int|
                working@.in_bounds(x, y) ==> #[trigger] working@.at(x, y) == 0
        },
{
    match decode_image(image_bytes) {
        Ok(decoded) => {
            let gray = to_luma(&decoded);
            let working = resize_to_working_size(&gray);
            Ok((gray, working))
        },
        Err(e) => Err(e),
    }
}

/// Every intermediate result of tracing an edge map.
pub struct EdgeTrace {
    /// The thinned edge map.
    pub skeleton: GrayImage,
    /// The skeleton with its gaps bridged.
    pub bridged: GrayImage,
    /// How many bridging lines were drawn.
    pub bridges: usize,
    /// The components of the bridged skeleton, largest first.
    pub selection: ComponentSelection,
    /// The closed contour of the largest component.
    pub contour: Vec<(i32, i32)>,
}

/// Thins the edge map, bridges gaps between stroke ends (at most `max_bridges`
/// lines, each at most `max_bridge_distance` long), finds the components of the
/// result, walks the largest one and closes the walk into a loop.
pub fn trace_edges(edges: &GrayImage, max_bridge_distance: u32, max_bridges: usize) -> (trace: EdgeTrace)
    requires
        edges.wf(),
        thinnable(edges@),
        max_bridge_distance <= 65535,
    ensures
        trace.skeleton.wf(),
        trace.skeleton@ == skeleton_of(edges@),
        trace.bridged.wf(),
        trace.bridged@ == bridged(
            trace.skeleton@,
            bridge_distance_sq(max_bridge_distance) as int,
            max_bridges as nat,
        ).0,
        trace.bridges == bridged(
            trace.skeleton@,
            bridge_distance_sq(max_bridge_distance) as int,
            max_bridges as nat,
        ).1,
        exists|found: Seq<Seq<(u32, u32)>>|
            scanned_as(trace.bridged@, found) && selection_of(
                sort_by_len_desc(found),
                trace.selection.largest@,
                contents(trace.selection.dropped@),
            ),
        exists|found: Seq<Seq<(u32, u32)>>, open: Seq<(i32, i32)>|
            scanned_as(trace.bridged@, found) && ipts(open) == contour_of(
                trace.bridged@,
                found,
            ) && trace.contour@ == closed_contour(open),
        forall|k: int|
            0 <= k < trace.contour@.len() ==> trace.bridged@.in_bounds(
                (#[trigger] trace.contour@[k]).0 as int,
                trace.contour@[k].1 as int,
            ),
        trace.contour@.len() >= 2 ==> trace.contour@.last() == trace.contour@[0],
{
    let skeleton = skeletonize(edges);
    let mut bridged_image = skeleton.duplicate();
    let max_dist_sq = squared_bridge_distance(max_bridge_distance);
    let bridges = bridge_gaps(&mut bridged_image, max_dist_sq, max_bridges);
    let selection = find_all_components_raw(&bridged_image);
    let contour = walk_contour(&bridged_image);
    let ghost open = contour@;
    proof {
        lemma_closed_contour_within(open, bridged_image@.width, bridged_image@.height);
    }
    let closed = close_contour(contour);
    EdgeTrace { skeleton, bridged: bridged_image, bridges, selection, contour: closed }
}

/// `num` positions spread evenly over `len` contour points: the `i`-th is
/// `floor(i * len / num)` wrapped into `0..len`.
pub fn sample_indices(len: usize, num: usize) -> (indices: Vec<usize>)
    requires
        num == 0 || len > 0,
    ensures
        indices@.len() == num,
        forall|i: int| 0 <= i < num ==> #[trigger] indices@[i] == (i * len / (num as int)) % (len as int),
        forall|i: int| 0 <= i < num ==> #[trigger] indices@[i] < len,
{
    let mut indices: Vec<usize> = Vec::new();
    let mut i: usize = 0;
    while i < num
        invariant
            i <= num,
            num > 0 ==> len > 0,
            indices@.len() == i,
            forall|k: int| 0 <= k < i ==> #[trigger] indices@[k] == (k * len / (num as int)) % (len as int),
        decreases num - i,
    {
        let wide_i: u128 = i as u128;
        let wide_len: u128 = len as u128;
        proof {
            assert(wide_i * wide_len <= u128::MAX) by (nonlinear_arith)
                requires
                    wide_i <= u64::MAX,
                    wide_len <= u64::MAX,
            ;
        }
        let idx: u128 = (wide_i * wide_len / (num as u128)) % wide_len;
        indices.push(idx as usize);
        i = i + 1;
    }
    indices
}

} // verus!
