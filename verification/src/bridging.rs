//! Stroke ends (pixels with a single non-black neighbour) and bridging the
//! closest pairs of them with straight lines.

use vstd::prelude::*;
use crate::line::{bresenham_line, line_points};
use crate::raster::{GrayImage, Raster, lemma_raster_ext, neighbor, neighbor_offset};

verus! {

/// How many of the first `k` neighbour offsets of `(x, y)` lead to a non-black pixel.
pub open spec fn fg_neighbors_upto(r: Raster, x: int, y: int, k: int) -> nat
    decreases k,
{
    if k <= 0 {
        0
    } else {
        fg_neighbors_upto(r, x, y, k - 1) + if r.is_fg(
            x + neighbor_offset(k - 1).0,
            y + neighbor_offset(k - 1).1,
        ) {
            1nat
        } else {
            0nat
        }
    }
}

/// The number of non-black pixels among the eight neighbours of `(x, y)`.
pub open spec fn fg_neighbor_count(r: Raster, x: int, y: int) -> nat {
    fg_neighbors_upto(r, x, y, 8)
}

/// A non-black pixel with exactly one non-black neighbour: the end of a stroke.
pub open spec fn is_endpoint(r: Raster, x: int, y: int) -> bool {
    r.is_fg(x, y) && fg_neighbor_count(r, x, y) == 1
}

/// The stroke ends among the first `x` pixels of row `y`, left to right.
pub open spec fn endpoints_in_row(r: Raster, y: int, x: int) -> Seq<(u32, u32)>
    decreases x,
{
    if x <= 0 {
        seq![]
    } else {
        endpoints_in_row(r, y, x - 1) + if is_endpoint(r, x - 1, y) {
            seq![((x - 1) as u32, y as u32)]
        } else {
            seq![]
        }
    }
}

/// The stroke ends of the first `y` rows, in row-major order.
pub open spec fn endpoints_upto(r: Raster, y: int) -> Seq<(u32, u32)>
    decreases y,
{
    if y <= 0 {
        seq![]
    } else {
        endpoints_upto(r, y - 1) + endpoints_in_row(r, y - 1, r.width)
    }
}

/// All stroke ends of the image, in row-major order.
pub open spec fn endpoints(r: Raster) -> Seq<(u32, u32)> {
    endpoints_upto(r, r.height)
}

/// The number of non-black pixels among the eight neighbours of `(x, y)`.
pub fn count_neighbors_on_image(image: &GrayImage, x: u32, y: u32) -> (n: usize)
    requires
        image.wf(),
    ensures
        n == fg_neighbor_count(image@, x as int, y as int),
        n <= 8,
{
    let (width, height) = image.dimensions();
    proof {
        image.lemma_valid();
    }
    let mut n: usize = 0;
    let mut k: usize = 0;
    while k < 8
        invariant
            k <= 8,
            width == image@.width,
            height == image@.height,
            image.wf(),
            image@.valid(),
            n == fg_neighbors_upto(image@, x as int, y as int, k as int),
            n <= k,
        decreases 8 - k,
    {
        let d = neighbor(k);
        let nx: i64 = x as i64 + d.0 as i64;
        let ny: i64 = y as i64 + d.1 as i64;
        if nx >= 0 && nx < width as i64 && ny >= 0 && ny < height as i64 && image.get_pixel(
            nx as u32,
            ny as u32,
        ) > 0 {
            n = n + 1;
        }
        k = k + 1;
    }
    n
}

/// All stroke ends of the image, in row-major order.
pub fn find_endpoints_on_image(image: &GrayImage) -> (ends: Vec<(u32, u32)>)
    requires
        image.wf(),
    ensures
        ends@ == endpoints(image@),
{
    let (width, height) = image.dimensions();
    let ghost r = image@;
    proof {
        image.lemma_valid();
    }
    let mut ends: Vec<(u32, u32)> = Vec::new();
    let mut y: u32 = 0;
    while y < height
        invariant
            width == r.width,
            height == r.height,
            r == image@,
            image.wf(),
            r.valid(),
            y <= height,
            ends@ == endpoints_upto(r, y as int),
        decreases height - y,
    {
        let mut x: u32 = 0;
        while x < width
            invariant
                width == r.width,
                height == r.height,
                r == image@,
                image.wf(),
                r.valid(),
                y < height,
                x <= width,
                ends@ == endpoints_upto(r, y as int) + endpoints_in_row(r, y as int, x as int),
            decreases width - x,
        {
            if image.get_pixel(x, y) > 0 && count_neighbors_on_image(image, x, y) == 1 {
                ends.push((x, y));
                proof {
                    assert(ends@ =~= endpoints_upto(r, y as int) + endpoints_in_row(
                        r,
                        y as int,
                        x + 1,
                    ));
                }
            } else {
                proof {
                    assert(endpoints_in_row(r, y as int, x + 1) =~= endpoints_in_row(
                        r,
                        y as int,
                        x as int,
                    ));
                }
            }
            x = x + 1;
        }
        proof {
            assert(endpoints_upto(r, y + 1) =~= endpoints_upto(r, y as int) + endpoints_in_row(
                r,
                y as int,
                r.width,
            ));
        }
        y = y + 1;
    }
    ends
}

proof fn lemma_row_ends_in_bounds(r: Raster, y: int, x: int)
    requires
        r.valid(),
        0 <= y < r.height,
        x <= r.width,
    ensures
        forall|k: int|
            0 <= k < endpoints_in_row(r, y, x).len() ==> (#[trigger] endpoints_in_row(r, y, x)[k]).0
                < r.width && endpoints_in_row(r, y, x)[k].0 < x && endpoints_in_row(r, y, x)[k].1
                == y,
    decreases x,
{
    if x > 0 {
        lemma_row_ends_in_bounds(r, y, x - 1);
        let pre = endpoints_in_row(r, y, x - 1);
        let all = endpoints_in_row(r, y, x);
        assert forall|k: int| 0 <= k < all.len() implies (#[trigger] all[k]).0 < r.width && all[k].0
            < x && all[k].1 == y by {
            if k < pre.len() {
                assert(all[k] == pre[k]);
            }
        }
    }
}

proof fn lemma_rows_ends_in_bounds(r: Raster, y: int)
    requires
        r.valid(),
        y <= r.height,
    ensures
        forall|k: int|
            0 <= k < endpoints_upto(r, y).len() ==> (#[trigger] endpoints_upto(r, y)[k]).0 < r.width
                && endpoints_upto(r, y)[k].1 < y,
    decreases y,
{
    if y > 0 {
        lemma_rows_ends_in_bounds(r, y - 1);
        lemma_row_ends_in_bounds(r, y - 1, r.width);
        let pre = endpoints_upto(r, y - 1);
        let row = endpoints_in_row(r, y - 1, r.width);
        let all = endpoints_upto(r, y);
        assert forall|k: int| 0 <= k < all.len() implies (#[trigger] all[k]).0 < r.width && all[k].1
            < y by {
            if k < pre.len() {
                assert(all[k] == pre[k]);
            } else {
                assert(all[k] == row[k - pre.len()]);
            }
        }
    }
}

/// Every stroke end lies inside the image.
pub proof fn lemma_endpoints_in_bounds(r: Raster)
    requires
        r.valid(),
    ensures
        forall|k: int|
            0 <= k < endpoints(r).len() ==> r.in_bounds(
                (#[trigger] endpoints(r)[k]).0 as int,
                endpoints(r)[k].1 as int,
            ),
{
    lemma_rows_ends_in_bounds(r, r.height);
}

pub open spec fn as_point(p: (u32, u32)) -> (i32, i32) {
    (p.0 as i32, p.1 as i32)
}

/// The image with every pixel of the digital line from `a` to `b` that lies inside it set white.
pub open spec fn draw_segment(r: Raster, a: (u32, u32), b: (u32, u32)) -> Raster {
    Raster {
        width: r.width,
        height: r.height,
        cells: Map::new(
            |p: (int, int)| r.in_bounds(p.0, p.1),
            |p: (int, int)|
                if line_points(as_point(a), as_point(b)).contains((p.0 as i32, p.1 as i32)) {
                    255u8
                } else {
                    r.at(p.0, p.1)
                },
        ),
    }
}

/// Sets white every pixel of the digital line from `from` to `to` that lies inside the image.
fn draw_line_on_image(image: &mut GrayImage, from: (u32, u32), to: (u32, u32))
    requires
        old(image).wf(),
        from.0 <= i32::MAX,
        from.1 <= i32::MAX,
        to.0 <= i32::MAX,
        to.1 <= i32::MAX,
    ensures
        final(image).wf(),
        final(image)@ == draw_segment(old(image)@, from, to),
{
    let a: (i32, i32) = (from.0 as i32, from.1 as i32);
    let b: (i32, i32) = (to.0 as i32, to.1 as i32);
    let points = bresenham_line(a, b);
    let (width, height) = image.dimensions();
    let ghost start = image@;
    proof {
        image.lemma_valid();
    }
    let mut k: usize = 0;
    while k < points.len()
        invariant
            k <= points@.len(),
            points@ == line_points(as_point(from), as_point(to)),
            width == start.width,
            height == start.height,
            image.wf(),
            image@.valid(),
            start.valid(),
            image@.same_shape(start),
            forall|x: int, y: int|
                #![trigger image@.at(x, y)]
                start.in_bounds(x, y) ==> image@.at(x, y) == if points@.subrange(0, k as int).contains(
                    (x as i32, y as i32),
                ) {
                    255u8
                } else {
                    start.at(x, y)
                },
        decreases points@.len() - k,
    {
        let (x, y) = points[k];
        let ghost before = image@;
        if x >= 0 && x < width as i32 && y >= 0 && y < height as i32 {
            image.put_pixel(x as u32, y as u32, 255);
            proof {
                image.lemma_valid();
            }
        }
        proof {
            let pre = points@.subrange(0, k as int);
            let post = points@.subrange(0, k + 1);
            assert(post =~= pre.push(points@[k as int]));
            assert forall|xx: int, yy: int|
                #![trigger image@.at(xx, yy)]
                start.in_bounds(xx, yy) implies image@.at(xx, yy) == if post.contains(
                    (xx as i32, yy as i32),
                ) {
                    255u8
                } else {
                    start.at(xx, yy)
                } by {
                assert(before.at(xx, yy) == if pre.contains((xx as i32, yy as i32)) {
                    255u8
                } else {
                    start.at(xx, yy)
                });
                if (xx as i32, yy as i32) == (x, y) {
                    assert(post[k as int] == (x, y));
                } else {
                    if post.contains((xx as i32, yy as i32)) {
                        let i = choose|i: int| 0 <= i < post.len() && post[i] == (xx as i32, yy as i32);
                        assert(pre[i] == post[i]);
                    }
                }
            }
        }
        k = k + 1;
    }
    proof {
        assert(points@.subrange(0, k as int) =~= points@);
        let expect = draw_segment(start, from, to);
        assert forall|x: int, y: int| start.in_bounds(x, y) implies #[trigger] image@.at(x, y)
            == expect.at(x, y) by {
            assert(expect.cells.dom().contains((x, y)));
        }
        lemma_raster_ext(image@, expect);
    }
}

pub open spec fn pair_sq_dist(p: (u32, u32), q: (u32, u32)) -> int {
    (q.0 - p.0) * (q.0 - p.0) + (q.1 - p.1) * (q.1 - p.1)
}

/// Two stroke ends more than one pixel apart and within the squared distance limit.
pub open spec fn bridgeable(e: Seq<(u32, u32)>, max_sq: int, i: int, j: int) -> bool {
    0 <= i < j < e.len() && 2 < pair_sq_dist(e[i], e[j]) <= max_sq
}

/// `(i, j)` is the closest bridgeable pair; among equally close pairs the first
/// in the order `(0, 1), (0, 2), ..., (1, 2), ...`.
pub open spec fn is_best_pair(e: Seq<(u32, u32)>, max_sq: int, i: int, j: int) -> bool {
    &&& bridgeable(e, max_sq, i, j)
    &&& forall|a: int, b: int|
        #[trigger] bridgeable(e, max_sq, a, b) ==> pair_sq_dist(e[i], e[j]) < pair_sq_dist(e[a], e[b])
            || (pair_sq_dist(e[i], e[j]) == pair_sq_dist(e[a], e[b]) && (i < a || (i == a && j
            <= b)))
}

pub open spec fn best_pair(e: Seq<(u32, u32)>, max_sq: int) -> Option<(int, int)> {
    if exists|i: int, j: int| is_best_pair(e, max_sq, i, j) {
        Some(choose|ij: (int, int)| is_best_pair(e, max_sq, ij.0, ij.1))
    } else {
        None
    }
}

proof fn lemma_best_pair_unique(e: Seq<(u32, u32)>, max_sq: int, i: int, j: int, a: int, b: int)
    requires
        is_best_pair(e, max_sq, i, j),
        is_best_pair(e, max_sq, a, b),
    ensures
        i == a && j == b,
{
    assert(bridgeable(e, max_sq, a, b));
    assert(bridgeable(e, max_sq, i, j));
}

/// The outcome of bridging with at most `budget` lines: while stroke ends remain
/// and some pair is bridgeable, the closest pair is joined by a white line.
/// Gives the final image and the number of lines drawn.
pub open spec fn bridged(r: Raster, max_sq: int, budget: nat) -> (Raster, nat)
    decreases budget,
{
    if budget == 0 {
        (r, 0)
    } else {
        let e = endpoints(r);
        if e.len() < 2 {
            (r, 0)
        } else {
            match best_pair(e, max_sq) {
                None => (r, 0),
                Some(ij) => {
                    let next = bridged(draw_segment(r, e[ij.0], e[ij.1]), max_sq, (budget - 1) as nat);
                    (next.0, next.1 + 1)
                },
            }
        }
    }
}

proof fn lemma_draw_segment_keeps(r: Raster, a: (u32, u32), b: (u32, u32))
    requires
        r.valid(),
    ensures
        draw_segment(r, a, b).valid(),
        draw_segment(r, a, b).same_shape(r),
        forall|x: int, y: int| r.is_fg(x, y) ==> #[trigger] draw_segment(r, a, b).is_fg(x, y),
{
    let d = draw_segment(r, a, b);
    assert forall|x: int, y: int| r.is_fg(x, y) implies #[trigger] d.is_fg(x, y) by {
        assert(d.cells.dom().contains((x, y)));
    }
}

/// Law: bridging keeps the raster's shape, never turns a non-black pixel black,
/// and draws at most `budget` lines.
pub proof fn lemma_bridging_only_adds(r: Raster, max_sq: int, budget: nat)
    requires
        r.valid(),
    ensures
        bridged(r, max_sq, budget).0.valid(),
        bridged(r, max_sq, budget).0.same_shape(r),
        forall|x: int, y: int| r.is_fg(x, y) ==> #[trigger] bridged(r, max_sq, budget).0.is_fg(x, y),
        bridged(r, max_sq, budget).1 <= budget,
    decreases budget,
{
    if budget > 0 {
        let e = endpoints(r);
        if e.len() >= 2 {
            if let Some(ij) = best_pair(e, max_sq) {
                let next = draw_segment(r, e[ij.0], e[ij.1]);
                lemma_draw_segment_keeps(r, e[ij.0], e[ij.1]);
                lemma_bridging_only_adds(next, max_sq, (budget - 1) as nat);
                assert forall|x: int, y: int| r.is_fg(x, y) implies #[trigger] bridged(
                    r,
                    max_sq,
                    budget,
                ).0.is_fg(x, y) by {
                    assert(next.is_fg(x, y));
                }
            }
        }
    }
}

/// Carries the search for the closest bridgeable pair from the pair `(i, j)` to
/// the end of the list, giving the outcome of the whole search.
proof fn lemma_scan_from(
    e: Seq<(u32, u32)>,
    max_sq: int,
    found: bool,
    bi: int,
    bj: int,
    bd: int,
    i: int,
    j: int,
) -> (res: (bool, int, int, int))
    requires
        0 <= i < e.len(),
        i < j <= e.len(),
        best_progress(e, max_sq, found, bi, bj, bd, i, j),
    ensures
        best_progress(e, max_sq, res.0, res.1, res.2, res.3, e.len() as int, e.len() as int + 1),
    decreases e.len() - i, e.len() - j,
{
    if j < e.len() {
        let d = pair_sq_dist(e[i], e[j]);
        if 2 < d <= max_sq && (!found || d < bd) {
            lemma_best_progress_step(e, max_sq, found, bi, bj, bd, true, i, j, d, i, j);
            lemma_scan_from(e, max_sq, true, i, j, d, i, j + 1)
        } else {
            lemma_best_progress_step(e, max_sq, found, bi, bj, bd, found, bi, bj, bd, i, j);
            lemma_scan_from(e, max_sq, found, bi, bj, bd, i, j + 1)
        }
    } else {
        lemma_best_progress_row(e, max_sq, found, bi, bj, bd, i);
        if i + 1 < e.len() {
            lemma_scan_from(e, max_sq, found, bi, bj, bd, i + 1, i + 2)
        } else {
            (found, bi, bj, bd)
        }
    }
}

/// Whenever some pair of stroke ends is bridgeable, a closest one exists.
proof fn lemma_best_pair_exists(e: Seq<(u32, u32)>, max_sq: int, a: int, b: int)
    requires
        bridgeable(e, max_sq, a, b),
    ensures
        best_pair(e, max_sq) is Some,
        is_best_pair(e, max_sq, (best_pair(e, max_sq)->0).0, (best_pair(e, max_sq)->0).1),
{
    assert(best_progress(e, max_sq, false, 0, 0, 0, 0, 1));
    let res = lemma_scan_from(e, max_sq, false, 0, 0, 0, 0, 1);
    lemma_best_progress_done(e, max_sq, res.0, res.1, res.2, res.3);
    if !res.0 {
        assert(looked_at(e.len() as int, e.len() as int + 1, a, b));
    }
}

/// Law: with budget left and some pair of stroke ends bridgeable, bridging draws
/// its first line between a closest bridgeable pair (the first in the order
/// `(0, 1), (0, 2), ..., (1, 2), ...` among equally close ones) and then goes on
/// from the raster with that line, with one line less of budget.
pub proof fn lemma_bridging_joins_closest_pair(r: Raster, max_sq: int, budget: nat, a: int, b: int)
    requires
        budget > 0,
        0 <= a < b < endpoints(r).len(),
        2 < pair_sq_dist(endpoints(r)[a], endpoints(r)[b]) <= max_sq,
    ensures
        exists|i: int, j: int|
            0 <= i < j < endpoints(r).len() && 2 < #[trigger] pair_sq_dist(
                endpoints(r)[i],
                endpoints(r)[j],
            ) <= max_sq && (forall|c: int, d: int|
                0 <= c < d < endpoints(r).len() && 2 < #[trigger] pair_sq_dist(
                    endpoints(r)[c],
                    endpoints(r)[d],
                ) <= max_sq ==> pair_sq_dist(endpoints(r)[i], endpoints(r)[j]) < pair_sq_dist(
                    endpoints(r)[c],
                    endpoints(r)[d],
                ) || (pair_sq_dist(endpoints(r)[i], endpoints(r)[j]) == pair_sq_dist(
                    endpoints(r)[c],
                    endpoints(r)[d],
                ) && (i < c || (i == c && j <= d)))) && bridged(r, max_sq, budget) == (
                bridged(
                    draw_segment(r, endpoints(r)[i], endpoints(r)[j]),
                    max_sq,
                    (budget - 1) as nat,
                ).0,
                bridged(
                    draw_segment(r, endpoints(r)[i], endpoints(r)[j]),
                    max_sq,
                    (budget - 1) as nat,
                ).1 + 1,
            ),
{
    let e = endpoints(r);
    assert(bridgeable(e, max_sq, a, b));
    lemma_best_pair_exists(e, max_sq, a, b);
    let ij = best_pair(e, max_sq)->0;
    assert(is_best_pair(e, max_sq, ij.0, ij.1));
    let i = ij.0;
    let j = ij.1;
    assert forall|c: int, d: int|
        0 <= c < d < e.len() && 2 < #[trigger] pair_sq_dist(e[c], e[d]) <= max_sq implies pair_sq_dist(
        e[i],
        e[j],
    ) < pair_sq_dist(e[c], e[d]) || (pair_sq_dist(e[i], e[j]) == pair_sq_dist(e[c], e[d]) && (i < c
        || (i == c && j <= d))) by {
        assert(bridgeable(e, max_sq, c, d));
    }
    assert(2 < pair_sq_dist(e[i], e[j]) <= max_sq);
}

/// Law: when bridging draws fewer lines than its budget allows, no two stroke
/// ends of the resulting raster are more than one pixel apart and within the
/// squared distance limit: every gap it could close has been closed.
pub proof fn lemma_bridging_leaves_no_gap(r: Raster, max_sq: int, budget: nat)
    requires
        r.valid(),
    ensures
        bridged(r, max_sq, budget).1 < budget ==> forall|i: int, j: int|
            0 <= i < j < endpoints(bridged(r, max_sq, budget).0).len() ==> !(2 < pair_sq_dist(
                #[trigger] endpoints(bridged(r, max_sq, budget).0)[i],
                #[trigger] endpoints(bridged(r, max_sq, budget).0)[j],
            ) <= max_sq),
    decreases budget,
{
    if budget > 0 {
        let e = endpoints(r);
        if e.len() >= 2 {
            match best_pair(e, max_sq) {
                None => {
                    assert forall|i: int, j: int| 0 <= i < j < e.len() implies !(2 < pair_sq_dist(
                        #[trigger] e[i],
                        #[trigger] e[j],
                    ) <= max_sq) by {
                        if 2 < pair_sq_dist(e[i], e[j]) <= max_sq {
                            lemma_best_pair_exists(e, max_sq, i, j);
                        }
                    }
                },
                Some(ij) => {
                    let next = draw_segment(r, e[ij.0], e[ij.1]);
                    lemma_draw_segment_keeps(r, e[ij.0], e[ij.1]);
                    lemma_bridging_leaves_no_gap(next, max_sq, (budget - 1) as nat);
                },
            }
        }
    }
}

/// Repeatedly joins the closest pair of stroke ends that are more than one pixel
/// apart and at most `max_distance_sq` apart (squared), at most `max_bridges`
/// times; returns how many lines were drawn.
pub fn bridge_gaps(image: &mut GrayImage, max_distance_sq: i32, max_bridges: usize) -> (drawn:
    usize)
    requires
        old(image).wf(),
    ensures
        final(image).wf(),
        final(image)@ == bridged(old(image)@, max_distance_sq as int, max_bridges as nat).0,
        drawn == bridged(old(image)@, max_distance_sq as int, max_bridges as nat).1,
        drawn < max_bridges ==> forall|i: int, j: int|
            0 <= i < j < endpoints(final(image)@).len() ==> !(2 < pair_sq_dist(
                #[trigger] endpoints(final(image)@)[i],
                #[trigger] endpoints(final(image)@)[j],
            ) <= max_distance_sq),
{
    proof {
        old(image).lemma_valid();
        lemma_bridging_leaves_no_gap(old(image)@, max_distance_sq as int, max_bridges as nat);
    }
    let ghost goal = bridged(image@, max_distance_sq as int, max_bridges as nat);
    let mut bridges_drawn: usize = 0;

    loop
        invariant_except_break
            bridged(image@, max_distance_sq as int, (max_bridges - bridges_drawn) as nat) == (
                goal.0,
                (goal.1 - bridges_drawn) as nat,
            ),
            goal.1 >= bridges_drawn,
        invariant
            image.wf(),
            bridges_drawn <= max_bridges,
        ensures
            image.wf(),
            image@ == goal.0,
            bridges_drawn == goal.1,
        decreases max_bridges - bridges_drawn,
    {
        if bridges_drawn >= max_bridges {
            break;
        }

        let endpoints_found = find_endpoints_on_image(image);
        let ghost e = endpoints_found@;
        let ghost r = image@;
        let ghost budget = (max_bridges - bridges_drawn) as nat;
        proof {
            image.lemma_valid();
            lemma_endpoints_in_bounds(r);
        }

        if endpoints_found.len() < 2 {
            proof {
                assert(bridged(r, max_distance_sq as int, budget) == (r, 0nat));
            }
            break;
        }

        let mut found: bool = false;
        let mut best_i: usize = 0;
        let mut best_j: usize = 0;
        let mut best_dist: i64 = 0;
        let n = endpoints_found.len();

        let mut i: usize = 0;
        while i < n
            invariant
                n == e.len(),
                e == endpoints_found@,
                i <= n,
                forall|k: int| 0 <= k < e.len() ==> (#[trigger] e[k]).0 <= i32::MAX && e[k].1 <= i32::MAX,
                best_progress(e, max_distance_sq as int, found, best_i as int, best_j as int, best_dist as int, i as int, i + 1),
            decreases n - i,
        {
            let mut j: usize = i + 1;
            while j < n
                invariant
                    n == e.len(),
                    e == endpoints_found@,
                    i < n,
                    i + 1 <= j <= n,
                    forall|k: int| 0 <= k < e.len() ==> (#[trigger] e[k]).0 <= i32::MAX && e[k].1 <= i32::MAX,
                    best_progress(e, max_distance_sq as int, found, best_i as int, best_j as int, best_dist as int, i as int, j as int),
                decreases n - j,
            {
                let (x1, y1) = endpoints_found[i];
                let (x2, y2) = endpoints_found[j];
                let dx: i64 = x2 as i64 - x1 as i64;
                let dy: i64 = y2 as i64 - y1 as i64;
                proof {
                    assert(0 <= dx * dx <= 0x3fff_ffff_0000_0001) by (nonlinear_arith)
                        requires
                            -0x7fff_ffff <= dx <= 0x7fff_ffff,
                    ;
                    assert(0 <= dy * dy <= 0x3fff_ffff_0000_0001) by (nonlinear_arith)
                        requires
                            -0x7fff_ffff <= dy <= 0x7fff_ffff,
                    ;
                }
                let dist_sq: i64 = dx * dx + dy * dy;
                let ghost before = (found, best_i as int, best_j as int, best_dist as int);
                if dist_sq > 2 && dist_sq <= max_distance_sq as i64 {
                    if !found || dist_sq < best_dist {
                        found = true;
                        best_i = i;
                        best_j = j;
                        best_dist = dist_sq;
                    }
                }
                proof {
                    lemma_best_progress_step(
                        e,
                        max_distance_sq as int,
                        before.0,
                        before.1,
                        before.2,
                        before.3,
                        found,
                        best_i as int,
                        best_j as int,
                        best_dist as int,
                        i as int,
                        j as int,
                    );
                }
                j = j + 1;
            }
            proof {
                lemma_best_progress_row(e, max_distance_sq as int, found, best_i as int, best_j as int, best_dist as int, i as int);
            }
            i = i + 1;
        }
        proof {
            lemma_best_progress_done(e, max_distance_sq as int, found, best_i as int, best_j as int, best_dist as int);
        }

        if found {
            let from = endpoints_found[best_i];
            let to = endpoints_found[best_j];
            draw_line_on_image(image, from, to);
            proof {
                let next = bridged(
                    draw_segment(r, e[best_i as int], e[best_j as int]),
                    max_distance_sq as int,
                    (budget - 1) as nat,
                );
                assert(bridged(r, max_distance_sq as int, budget) == (next.0, next.1 + 1));
            }
            bridges_drawn = bridges_drawn + 1;
        } else {
            proof {
                assert(bridged(r, max_distance_sq as int, budget) == (r, 0nat));
            }
            break;
        }
    }
    bridges_drawn
}

/// Pairs `(a, b)` with `a < i`, or `a == i` and `b < j`, have been looked at.
pub open spec fn looked_at(i: int, j: int, a: int, b: int) -> bool {
    a < i || (a == i && b < j)
}

/// The best bridgeable pair among those looked at, if any.
pub open spec fn best_progress(
    e: Seq<(u32, u32)>,
    max_sq: int,
    found: bool,
    bi: int,
    bj: int,
    bd: int,
    i: int,
    j: int,
) -> bool {
    &&& found ==> {
        &&& bridgeable(e, max_sq, bi, bj)
        &&& bd == pair_sq_dist(e[bi], e[bj])
        &&& looked_at(i, j, bi, bj)
        &&& forall|a: int, b: int|
            #[trigger] bridgeable(e, max_sq, a, b) && looked_at(i, j, a, b) ==> bd < pair_sq_dist(
                e[a],
                e[b],
            ) || (bd == pair_sq_dist(e[a], e[b]) && (bi < a || (bi == a && bj <= b)))
    }
    &&& !found ==> forall|a: int, b: int| #[trigger] bridgeable(e, max_sq, a, b) ==> !looked_at(i, j, a, b)
}

proof fn lemma_best_progress_step(
    e: Seq<(u32, u32)>,
    max_sq: int,
    found0: bool,
    bi0: int,
    bj0: int,
    bd0: int,
    found: bool,
    bi: int,
    bj: int,
    bd: int,
    i: int,
    j: int,
)
    requires
        0 <= i < j < e.len(),
        best_progress(e, max_sq, found0, bi0, bj0, bd0, i, j),
        ({
            let d = pair_sq_dist(e[i], e[j]);
            if 2 < d <= max_sq && (!found0 || d < bd0) {
                found && bi == i && bj == j && bd == d
            } else {
                found == found0 && bi == bi0 && bj == bj0 && bd == bd0
            }
        }),
    ensures
        best_progress(e, max_sq, found, bi, bj, bd, i, j + 1),
{
    assert forall|a: int, b: int| #[trigger] bridgeable(e, max_sq, a, b) && looked_at(i, j + 1, a, b) && !looked_at(i, j, a, b) implies a == i && b == j by {
    }
}

proof fn lemma_best_progress_row(
    e: Seq<(u32, u32)>,
    max_sq: int,
    found: bool,
    bi: int,
    bj: int,
    bd: int,
    i: int,
)
    requires
        0 <= i < e.len(),
        best_progress(e, max_sq, found, bi, bj, bd, i, e.len() as int),
    ensures
        best_progress(e, max_sq, found, bi, bj, bd, i + 1, i + 2),
{
    assert forall|a: int, b: int| #[trigger] bridgeable(e, max_sq, a, b) implies looked_at(i + 1, i + 2, a, b) == looked_at(i, e.len() as int, a, b) by {
    }
}

proof fn lemma_best_progress_done(
    e: Seq<(u32, u32)>,
    max_sq: int,
    found: bool,
    bi: int,
    bj: int,
    bd: int,
)
    requires
        best_progress(e, max_sq, found, bi, bj, bd, e.len() as int, e.len() as int + 1),
    ensures
        found ==> is_best_pair(e, max_sq, bi, bj) && best_pair(e, max_sq) == Some((bi, bj)),
        !found ==> best_pair(e, max_sq) is None,
{
    if found {
        assert forall|a: int, b: int| #[trigger] bridgeable(e, max_sq, a, b) implies looked_at(e.len() as int, e.len() as int + 1, a, b) by {
        }
        assert(is_best_pair(e, max_sq, bi, bj));
        let ij = choose|ij: (int, int)| is_best_pair(e, max_sq, ij.0, ij.1);
        assert(is_best_pair(e, max_sq, (bi, bj).0, (bi, bj).1));
        lemma_best_pair_unique(e, max_sq, bi, bj, ij.0, ij.1);
    } else {
        assert forall|a: int, b: int| !is_best_pair(e, max_sq, a, b) by {
            if is_best_pair(e, max_sq, a, b) {
                assert(bridgeable(e, max_sq, a, b));
                assert(looked_at(e.len() as int, e.len() as int + 1, a, b));
            }
        }
    }
}

} // verus!
