//! Linked contours of an edge map.

use vstd::prelude::*;
use crate::bridging::bridged;
use crate::components::scanned_as;
use crate::raster::GrayImage;
use crate::walk::{bridge_and_walk, bridge_distance_sq, contour_of, ipts};

verus! {

/// The contour of an edge map after bridging its gaps, on a copy of the map.
pub fn find_linked_contours(edges: &GrayImage, max_bridge_distance: u32, max_bridges: usize) -> (contour:
    Vec<(i32, i32)>)
    requires
        edges.wf(),
        max_bridge_distance <= 65535,
    ensures
        exists|found: Seq<Seq<(u32, u32)>>|
            scanned_as(
                bridged(edges@, bridge_distance_sq(max_bridge_distance) as int, max_bridges as nat).0,
                found,
            ) && ipts(contour@) == contour_of(
                bridged(edges@, bridge_distance_sq(max_bridge_distance) as int, max_bridges as nat).0,
                found,
            ),
{
    let mut skeleton = edges.duplicate();
    bridge_and_walk(&mut skeleton, max_bridge_distance, max_bridges)
}

/// The bridged edge map and its contour.
pub fn find_linked_contours_with_image(
    edges: &GrayImage,
    max_bridge_distance: u32,
    max_bridges: usize,
) -> (result: (GrayImage, Vec<(i32, i32)>))
    requires
        edges.wf(),
        max_bridge_distance <= 65535,
    ensures
        result.0.wf(),
        result.0@ == bridged(
            edges@,
            bridge_distance_sq(max_bridge_distance) as int,
            max_bridges as nat,
        ).0,
        exists|found: Seq<Seq<(u32, u32)>>|
            scanned_as(result.0@, found) && ipts(result.1@) == contour_of(result.0@, found),
{
    let mut skeleton = edges.duplicate();
    let contour = bridge_and_walk(&mut skeleton, max_bridge_distance, max_bridges);
    (skeleton, contour)
}

/// Position `i` of a linked path lies on a joining line: some two consecutive
/// boundaries `b[k] <= i < b[k + 1]` enclose it.
pub open spec fn on_connector(boundaries: Seq<usize>, i: int) -> bool {
    exists|k: int| 0 <= k < boundaries.len() - 1 && #[trigger] boundaries[k] <= i < boundaries[k + 1]
}

/// Whether position `i` of a linked path lies between two consecutive boundaries.
pub fn is_connector(boundaries: &Vec<usize>, i: usize) -> (found: bool)
    ensures
        found == on_connector(boundaries@, i as int),
{
    let mut k: usize = 1;
    while k < boundaries.len()
        invariant
            1 <= k,
            forall|j: int| 0 <= j < k - 1 && j < boundaries@.len() - 1 ==> !(#[trigger] boundaries@[j] <= i < boundaries@[j + 1]),
        decreases boundaries@.len() - k,
    {
        if boundaries[k - 1] <= i && i < boundaries[k] {
            return true;
        }
        k = k + 1;
    }
    false
}

} // verus!
