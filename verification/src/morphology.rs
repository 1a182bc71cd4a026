//! Morphological closing and Zhang–Suen thinning of edge maps.

use vstd::prelude::*;
use crate::raster::{GrayImage, Raster, counted_before, lemma_fg_count_shrinks, lemma_raster_ext};

verus! {

// ---------------------------------------------------------------------------
// Closing with the 3x3 square.

/// Some pixel of the 3x3 square around `(x, y)` is non-black.
pub open spec fn near_foreground(r: Raster, x: int, y: int) -> bool {
    r.is_fg(x - 1, y - 1) || r.is_fg(x, y - 1) || r.is_fg(x + 1, y - 1) || r.is_fg(x - 1, y)
        || r.is_fg(x, y) || r.is_fg(x + 1, y) || r.is_fg(x - 1, y + 1) || r.is_fg(x, y + 1)
        || r.is_fg(x + 1, y + 1)
}

/// After dilation, `(x, y)` is white unless it lies inside the raster and is black.
pub open spec fn dilated_white(r: Raster, x: int, y: int) -> bool {
    r.in_bounds(x, y) ==> near_foreground(r, x, y)
}

/// Dilation then erosion by the 3x3 square: a pixel ends white exactly when every
/// pixel of its 3x3 square that lies inside the raster is white after dilation.
pub open spec fn closed_once(r: Raster) -> Raster {
    Raster {
        width: r.width,
        height: r.height,
        cells: Map::new(
            |p: (int, int)| r.in_bounds(p.0, p.1),
            |p: (int, int)|
                {
                    let (x, y) = p;
                    if dilated_white(r, x - 1, y - 1) && dilated_white(r, x, y - 1)
                        && dilated_white(r, x + 1, y - 1) && dilated_white(r, x - 1, y)
                        && dilated_white(r, x, y) && dilated_white(r, x + 1, y)
                        && dilated_white(r, x - 1, y + 1) && dilated_white(r, x, y + 1)
                        && dilated_white(r, x + 1, y + 1) {
                        255u8
                    } else {
                        0u8
                    }
                },
        ),
    }
}

/// `iterations` closings in a row.
pub open spec fn closed_times(r: Raster, iterations: nat) -> Raster
    decreases iterations,
{
    if iterations == 0 {
        r
    } else {
        closed_once(closed_times(r, (iterations - 1) as nat))
    }
}

/// Law: closing keeps the raster's shape and never turns a non-black pixel black.
pub proof fn lemma_closing_keeps_foreground(r: Raster)
    requires
        r.valid(),
    ensures
        closed_once(r).valid(),
        closed_once(r).same_shape(r),
        forall|x: int, y: int| r.is_fg(x, y) ==> #[trigger] closed_once(r).is_fg(x, y),
{
    let c = closed_once(r);
    assert forall|x: int, y: int| r.is_fg(x, y) implies #[trigger] c.is_fg(x, y) by {
        assert(c.cells.dom().contains((x, y)));
        assert(near_foreground(r, x - 1, y - 1) && near_foreground(r, x, y - 1) && near_foreground(r, x + 1, y - 1));
        assert(near_foreground(r, x - 1, y) && near_foreground(r, x, y) && near_foreground(r, x + 1, y));
        assert(near_foreground(r, x - 1, y + 1) && near_foreground(r, x, y + 1) && near_foreground(r, x + 1, y + 1));
    }
}

/// Law: any number of closings keeps the raster's shape and every non-black pixel.
pub proof fn lemma_closings_keep_foreground(r: Raster, iterations: nat)
    requires
        r.valid(),
    ensures
        closed_times(r, iterations).valid(),
        closed_times(r, iterations).same_shape(r),
        forall|x: int, y: int| r.is_fg(x, y) ==> #[trigger] closed_times(r, iterations).is_fg(x, y),
    decreases iterations,
{
    if iterations > 0 {
        let prev = closed_times(r, (iterations - 1) as nat);
        lemma_closings_keep_foreground(r, (iterations - 1) as nat);
        lemma_closing_keeps_foreground(prev);
        assert forall|x: int, y: int| r.is_fg(x, y) implies #[trigger] closed_times(r, iterations).is_fg(x, y) by {
            assert(prev.is_fg(x, y));
        }
    }
}

/// Calls `imageproc::morphology::close` with the chessboard norm and radius 1.
/// Its documentation and source define closing as dilation then erosion, dilation
/// whitening every pixel within distance 1 of a non-black pixel and erosion
/// blackening every pixel within distance 1 of a black one; the contract states
/// that for the chessboard distance, over the pixels inside the image.
#[verifier::external_body]
fn close_square(image: &GrayImage) -> (closed: GrayImage)
    requires
        image.wf(),
    ensures
        closed.wf(),
        closed@ == closed_once(image@),
{
    let (width, height) = image.dimensions();
    let buffer = image::GrayImage::from_raw(width, height, image.as_raw().clone()).unwrap();
    let out = imageproc::morphology::close(&buffer, imageproc::distance_transform::Norm::LInf, 1);
    GrayImage::from_raw(width, height, out.into_raw()).unwrap()
}

/// Closes the image `iterations` times with the 3x3 square, joining strokes that
/// are one pixel apart.
pub fn morphological_close(image: &GrayImage, iterations: u8) -> (result: GrayImage)
    requires
        image.wf(),
    ensures
        result.wf(),
        result@ == closed_times(image@, iterations as nat),
{
    if iterations == 0 {
        return image.duplicate();
    }
    let mut result = image.duplicate();
    let mut i: u8 = 0;
    while i < iterations
        invariant
            i <= iterations,
            result.wf(),
            result@ == closed_times(image@, i as nat),
        decreases iterations - i,
    {
        result = close_square(&result);
        i = i + 1;
    }
    result
}

// ---------------------------------------------------------------------------
// Zhang–Suen thinning.

/// The eight neighbours of `(x, y)`, clockwise from the one above (P2..P9), as
/// "non-black" flags.
pub open spec fn ring(r: Raster, x: int, y: int) -> Seq<bool> {
    seq![
        r.at(x, y - 1) > 0,
        r.at(x + 1, y - 1) > 0,
        r.at(x + 1, y) > 0,
        r.at(x + 1, y + 1) > 0,
        r.at(x, y + 1) > 0,
        r.at(x - 1, y + 1) > 0,
        r.at(x - 1, y) > 0,
        r.at(x - 1, y - 1) > 0,
    ]
}

pub open spec fn count_true(s: Seq<bool>) -> nat
    decreases s.len(),
{
    if s.len() == 0 {
        0
    } else {
        count_true(s.drop_last()) + if s.last() {
            1nat
        } else {
            0nat
        }
    }
}

/// How many of the first `n` positions hold `false` followed (cyclically) by `true`.
pub open spec fn rises_upto(s: Seq<bool>, n: int) -> nat
    decreases n,
{
    if n <= 0 {
        0
    } else {
        rises_upto(s, n - 1) + if !s[n - 1] && s[n % (s.len() as int)] {
            1nat
        } else {
            0nat
        }
    }
}

/// The number of black-to-white steps going once round the ring.
pub open spec fn transitions(s: Seq<bool>) -> nat {
    rises_upto(s, s.len() as int)
}

/// The Zhang–Suen deletion test for an interior non-black pixel: two to six
/// non-black neighbours, exactly one black-to-white step round them, and, in the
/// first sub-iteration, not both P4 and P6 set with P2 or P8 set (in the second,
/// not both P2 and P8 set with P4 or P6 set).
pub open spec fn removable(r: Raster, x: int, y: int, first: bool) -> bool {
    let n = ring(r, x, y);
    let (p2, p4, p6, p8) = (n[0], n[2], n[4], n[6]);
    &&& 1 <= x < r.width - 1
    &&& 1 <= y < r.height - 1
    &&& r.at(x, y) != 0
    &&& 2 <= count_true(n) <= 6
    &&& transitions(n) == 1
    &&& if first {
        !((p8 || p2) && p6 && p4)
    } else {
        !((p6 || p4) && p8 && p2)
    }
}

pub open spec fn has_removable(r: Raster, first: bool) -> bool {
    exists|x: int, y: int| removable(r, x, y, first)
}

/// One sub-iteration: every pixel that passes the deletion test turns black at once.
pub open spec fn thin_pass(r: Raster, first: bool) -> Raster {
    Raster {
        width: r.width,
        height: r.height,
        cells: Map::new(
            |p: (int, int)| r.in_bounds(p.0, p.1),
            |p: (int, int)|
                if removable(r, p.0, p.1, first) {
                    0u8
                } else {
                    r.at(p.0, p.1)
                },
        ),
    }
}

/// A sub-iteration keeps the raster valid, never adds a non-black pixel, and removes
/// at least one when some pixel passes the test.
pub proof fn lemma_thin_pass(r: Raster, first: bool)
    requires
        r.valid(),
    ensures
        thin_pass(r, first).valid(),
        thin_pass(r, first).same_shape(r),
        thin_pass(r, first).fg_count() <= r.fg_count(),
        has_removable(r, first) ==> thin_pass(r, first).fg_count() < r.fg_count(),
        !has_removable(r, first) ==> thin_pass(r, first) == r,
{
    let t = thin_pass(r, first);
    assert forall|a: int, b: int| r.in_bounds(a, b) && #[trigger] t.at(a, b) > 0 implies r.at(a, b)
        > 0 by {
        assert(t.cells.dom().contains((a, b)));
    }
    lemma_fg_count_shrinks(r, t, r.width, r.height);
    if has_removable(r, first) {
        let (x0, y0) = choose|x: int, y: int| removable(r, x, y, first);
        assert(t.cells.dom().contains((x0, y0)));
        assert(counted_before(r.width, x0, y0, r.width, r.height));
        assert(t.at(x0, y0) == 0);
    } else {
        assert forall|x: int, y: int| r.in_bounds(x, y) implies #[trigger] r.at(x, y) == t.at(x, y) by {
            assert(t.cells.dom().contains((x, y)));
            assert(!removable(r, x, y, first));
        }
        lemma_raster_ext(r, t);
    }
}

/// The thinned raster: both sub-iterations are repeated until neither removes a pixel.
pub open spec fn skeleton_of(r: Raster) -> Raster
    decreases r.fg_count(),
    when r.valid()
{
    let a = thin_pass(r, true);
    let b = thin_pass(a, false);
    if !has_removable(r, true) && !has_removable(a, false) {
        r
    } else {
        proof {
            lemma_thin_pass(r, true);
            lemma_thin_pass(a, false);
        }
        skeleton_of(b)
    }
}

proof fn lemma_thin_pass_within(r: Raster, first: bool)
    requires
        r.valid(),
    ensures
        forall|x: int, y: int| #[trigger] thin_pass(r, first).is_fg(x, y) ==> r.is_fg(x, y),
{
    assert forall|x: int, y: int| #[trigger] thin_pass(r, first).is_fg(x, y) implies r.is_fg(x, y) by {
        assert(thin_pass(r, first).cells.dom().contains((x, y)));
    }
}

/// Law: thinning keeps the raster's shape, never adds a non-black pixel, and leaves
/// no pixel that either sub-iteration would remove, so thinning the result again
/// changes nothing.
pub proof fn lemma_skeleton_within(r: Raster)
    requires
        r.valid(),
    ensures
        skeleton_of(r).valid(),
        skeleton_of(r).same_shape(r),
        forall|x: int, y: int| #[trigger] skeleton_of(r).is_fg(x, y) ==> r.is_fg(x, y),
        !has_removable(skeleton_of(r), true),
        !has_removable(skeleton_of(r), false),
        skeleton_of(skeleton_of(r)) == skeleton_of(r),
    decreases r.fg_count(),
{
    let a = thin_pass(r, true);
    let b = thin_pass(a, false);
    lemma_thin_pass(r, true);
    lemma_thin_pass(a, false);
    if !has_removable(r, true) && !has_removable(a, false) {
        assert(a == r);
        assert(skeleton_of(r) == r);
    } else {
        lemma_thin_pass_within(r, true);
        lemma_thin_pass_within(a, false);
        lemma_skeleton_within(b);
        assert(skeleton_of(r) == skeleton_of(b));
        assert forall|x: int, y: int| #[trigger] skeleton_of(r).is_fg(x, y) implies r.is_fg(x, y) by {
            assert(b.is_fg(x, y));
            assert(a.is_fg(x, y));
        }
    }
    let s = skeleton_of(r);
    lemma_thin_pass(s, true);
    assert(thin_pass(s, true) == s);
}

/// 1 for a set flag, 0 otherwise.
pub open spec fn flag(b: bool) -> nat {
    if b {
        1
    } else {
        0
    }
}

/// The neighbour count and the black-to-white steps of an eight-entry ring,
/// written out entry by entry.
proof fn lemma_ring_counts(s: Seq<bool>)
    requires
        s.len() == 8,
    ensures
        count_true(s) == flag(s[0]) + flag(s[1]) + flag(s[2]) + flag(s[3]) + flag(s[4]) + flag(s[5])
            + flag(s[6]) + flag(s[7]),
        transitions(s) == flag(!s[0] && s[1]) + flag(!s[1] && s[2]) + flag(!s[2] && s[3]) + flag(
            !s[3] && s[4],
        ) + flag(!s[4] && s[5]) + flag(!s[5] && s[6]) + flag(!s[6] && s[7]) + flag(!s[7] && s[0]),
{
    reveal_with_fuel(count_true, 9);
    reveal_with_fuel(rises_upto, 9);
    assert(s.drop_last().drop_last().drop_last().drop_last().drop_last().drop_last().drop_last().drop_last().len() == 0);
    assert(8int % 8 == 0);
}

/// The non-black pixels of `r` are exactly a straight horizontal stroke two pixels
/// thick, columns `x0..=x1` of rows `y0` and `y0 + 1`, at least three pixels long
/// and clear of the border.
pub open spec fn two_thick_stroke(r: Raster, x0: int, x1: int, y0: int) -> bool {
    &&& r.valid()
    &&& 1 <= x0 && x0 + 2 <= x1 && x1 <= r.width - 2
    &&& 1 <= y0 && y0 + 1 <= r.height - 2
    &&& forall|x: int, y: int|
        r.in_bounds(x, y) ==> (#[trigger] r.at(x, y) > 0 <==> (x0 <= x <= x1 && y0 <= y <= y0 + 1))
}

/// The non-black pixels of `r` are exactly the rectangle of columns `xa..=xb` and
/// rows `ya..=yb`, which lies clear of the border.
pub open spec fn rect_pixels(r: Raster, xa: int, xb: int, ya: int, yb: int) -> bool {
    &&& r.valid()
    &&& 1 <= xa <= xb && xb <= r.width - 2
    &&& 1 <= ya <= yb && yb <= r.height - 2
    &&& forall|x: int, y: int|
        r.in_bounds(x, y) ==> (#[trigger] r.at(x, y) > 0 <==> (xa <= x <= xb && ya <= y <= yb))
}

/// The non-black pixels of `r` are exactly a straight vertical stroke two pixels
/// thick, rows `y0..=y1` of columns `x0` and `x0 + 1`, at least three pixels long
/// and clear of the border.
pub open spec fn two_thick_column(r: Raster, x0: int, y0: int, y1: int) -> bool {
    &&& r.valid()
    &&& 1 <= x0 && x0 + 1 <= r.width - 2
    &&& 1 <= y0 && y0 + 2 <= y1 && y1 <= r.height - 2
    &&& forall|x: int, y: int|
        r.in_bounds(x, y) ==> (#[trigger] r.at(x, y) > 0 <==> (x0 <= x <= x0 + 1 && y0 <= y <= y1))
}

/// On a two-thick stroke the first sub-iteration removes the whole lower row and
/// both ends of the upper row, and nothing else.
proof fn lemma_first_pass_on_stroke(r: Raster, x0: int, x1: int, y0: int)
    requires
        two_thick_stroke(r, x0, x1, y0),
    ensures
        removable(r, x0, y0, true),
        rect_pixels(thin_pass(r, true), x0 + 1, x1 - 1, y0, y0),
{
    let t = thin_pass(r, true);
    lemma_thin_pass(r, true);
    assert forall|x: int, y: int| t.in_bounds(x, y) implies (#[trigger] t.at(x, y) > 0 <==> (y == y0
        && x0 < x < x1)) by {
        assert(t.cells.dom().contains((x, y)));
        if x0 <= x <= x1 && y0 <= y <= y0 + 1 {
            let n = ring(r, x, y);
            lemma_ring_counts(n);
            assert(r.at(x, y) > 0);
            assert(n[0] == (r.at(x, y - 1) > 0));
            assert(n[1] == (r.at(x + 1, y - 1) > 0));
            assert(n[2] == (r.at(x + 1, y) > 0));
            assert(n[3] == (r.at(x + 1, y + 1) > 0));
            assert(n[4] == (r.at(x, y + 1) > 0));
            assert(n[5] == (r.at(x - 1, y + 1) > 0));
            assert(n[6] == (r.at(x - 1, y) > 0));
            assert(n[7] == (r.at(x - 1, y - 1) > 0));
            if y == y0 && x0 < x < x1 {
                assert(!removable(r, x, y, true));
            } else {
                assert(removable(r, x, y, true));
            }
        } else {
            assert(r.at(x, y) == 0);
        }
    }
    let n = ring(r, x0, y0);
    lemma_ring_counts(n);
    assert(r.at(x0, y0) > 0);
    assert(n[0] == (r.at(x0, y0 - 1) > 0));
    assert(n[1] == (r.at(x0 + 1, y0 - 1) > 0));
    assert(n[2] == (r.at(x0 + 1, y0) > 0));
    assert(n[3] == (r.at(x0 + 1, y0 + 1) > 0));
    assert(n[4] == (r.at(x0, y0 + 1) > 0));
    assert(n[5] == (r.at(x0 - 1, y0 + 1) > 0));
    assert(n[6] == (r.at(x0 - 1, y0) > 0));
    assert(n[7] == (r.at(x0 - 1, y0 - 1) > 0));
}

/// Neither sub-iteration removes any pixel of a one-pixel-wide line: its inner
/// pixels have two neighbours with two black-to-white steps, its ends at most one
/// neighbour.
proof fn lemma_line_is_stable(r: Raster, xa: int, xb: int, ya: int, yb: int, first: bool)
    requires
        rect_pixels(r, xa, xb, ya, yb),
        xa == xb || ya == yb,
    ensures
        !has_removable(r, first),
{
    assert forall|x: int, y: int| !removable(r, x, y, first) by {
        if removable(r, x, y, first) {
            let n = ring(r, x, y);
            lemma_ring_counts(n);
            assert(r.at(x, y) > 0);
            assert(xa <= x <= xb && ya <= y <= yb);
            assert(n[0] == (r.at(x, y - 1) > 0));
            assert(n[1] == (r.at(x + 1, y - 1) > 0));
            assert(n[2] == (r.at(x + 1, y) > 0));
            assert(n[3] == (r.at(x + 1, y + 1) > 0));
            assert(n[4] == (r.at(x, y + 1) > 0));
            assert(n[5] == (r.at(x - 1, y + 1) > 0));
            assert(n[6] == (r.at(x - 1, y) > 0));
            assert(n[7] == (r.at(x - 1, y - 1) > 0));
        }
    }
}

/// Law: thinning leaves a straight horizontal or vertical line one pixel wide (a
/// single pixel included), clear of the border, exactly as it is.
pub proof fn lemma_line_is_kept(r: Raster, xa: int, xb: int, ya: int, yb: int)
    requires
        rect_pixels(r, xa, xb, ya, yb),
        xa == xb || ya == yb,
    ensures
        skeleton_of(r) == r,
{
    lemma_line_is_stable(r, xa, xb, ya, yb, true);
    lemma_line_is_stable(r, xa, xb, ya, yb, false);
    lemma_thin_pass(r, true);
    assert(thin_pass(r, true) == r);
}

/// On a vertical two-thick stroke the first sub-iteration removes the whole right
/// column and both ends of the left one, and nothing else.
proof fn lemma_first_pass_on_column(r: Raster, x0: int, y0: int, y1: int)
    requires
        two_thick_column(r, x0, y0, y1),
    ensures
        removable(r, x0, y0, true),
        rect_pixels(thin_pass(r, true), x0, x0, y0 + 1, y1 - 1),
{
    let t = thin_pass(r, true);
    lemma_thin_pass(r, true);
    assert forall|x: int, y: int| t.in_bounds(x, y) implies (#[trigger] t.at(x, y) > 0 <==> (x == x0
        && y0 < y < y1)) by {
        assert(t.cells.dom().contains((x, y)));
        if x0 <= x <= x0 + 1 && y0 <= y <= y1 {
            let n = ring(r, x, y);
            lemma_ring_counts(n);
            assert(r.at(x, y) > 0);
            assert(n[0] == (r.at(x, y - 1) > 0));
            assert(n[1] == (r.at(x + 1, y - 1) > 0));
            assert(n[2] == (r.at(x + 1, y) > 0));
            assert(n[3] == (r.at(x + 1, y + 1) > 0));
            assert(n[4] == (r.at(x, y + 1) > 0));
            assert(n[5] == (r.at(x - 1, y + 1) > 0));
            assert(n[6] == (r.at(x - 1, y) > 0));
            assert(n[7] == (r.at(x - 1, y - 1) > 0));
            if x == x0 && y0 < y < y1 {
                assert(!removable(r, x, y, true));
            } else {
                assert(removable(r, x, y, true));
            }
        } else {
            assert(r.at(x, y) == 0);
        }
    }
    let n = ring(r, x0, y0);
    lemma_ring_counts(n);
    assert(r.at(x0, y0) > 0);
    assert(n[0] == (r.at(x0, y0 - 1) > 0));
    assert(n[1] == (r.at(x0 + 1, y0 - 1) > 0));
    assert(n[2] == (r.at(x0 + 1, y0) > 0));
    assert(n[3] == (r.at(x0 + 1, y0 + 1) > 0));
    assert(n[4] == (r.at(x0, y0 + 1) > 0));
    assert(n[5] == (r.at(x0 - 1, y0 + 1) > 0));
    assert(n[6] == (r.at(x0 - 1, y0) > 0));
    assert(n[7] == (r.at(x0 - 1, y0 - 1) > 0));
}

/// Thinning a raster whose first sub-iteration leaves a one-pixel-wide line gives
/// that line.
proof fn lemma_skeleton_after_first_pass(r: Raster, xa: int, xb: int, ya: int, yb: int)
    requires
        r.valid(),
        has_removable(r, true),
        rect_pixels(thin_pass(r, true), xa, xb, ya, yb),
        xa == xb || ya == yb,
    ensures
        skeleton_of(r) == thin_pass(r, true),
{
    let a = thin_pass(r, true);
    lemma_thin_pass(r, true);
    lemma_line_is_stable(a, xa, xb, ya, yb, true);
    lemma_line_is_stable(a, xa, xb, ya, yb, false);
    lemma_thin_pass(a, false);
    lemma_thin_pass(a, true);
    assert(thin_pass(a, false) == a);
    assert(skeleton_of(r) == skeleton_of(a));
    assert(skeleton_of(a) == a);
}

/// The non-black pixels of `r` are exactly the upper row `y0` strictly between
/// columns `x0` and `x1`, and the row below it from `x0` to `x1 - 1`.
pub open spec fn stepped_rows(r: Raster, x0: int, x1: int, y0: int) -> bool {
    &&& r.valid()
    &&& 1 <= x0 && x0 + 3 <= x1 && x1 <= r.width - 2
    &&& 1 <= y0 && y0 + 2 <= r.height - 2
    &&& forall|x: int, y: int|
        r.in_bounds(x, y) ==> (#[trigger] r.at(x, y) > 0 <==> ((y == y0 && x0 < x < x1) || (y == y0
            + 1 && x0 <= x <= x1 - 1)))
}

/// On a three-thick stroke the first sub-iteration removes the lower row, both
/// ends of the upper row and the right end of the middle one.
proof fn lemma_first_pass_on_three_thick(r: Raster, x0: int, x1: int, y0: int)
    requires
        rect_pixels(r, x0, x1, y0, y0 + 2),
        x0 + 3 <= x1,
    ensures
        removable(r, x0, y0, true),
        stepped_rows(thin_pass(r, true), x0, x1, y0),
{
    let t = thin_pass(r, true);
    lemma_thin_pass(r, true);
    assert forall|x: int, y: int| t.in_bounds(x, y) implies (#[trigger] t.at(x, y) > 0 <==> ((y == y0
        && x0 < x < x1) || (y == y0 + 1 && x0 <= x <= x1 - 1))) by {
        assert(t.cells.dom().contains((x, y)));
        if x0 <= x <= x1 && y0 <= y <= y0 + 2 {
            let n = ring(r, x, y);
            lemma_ring_counts(n);
            assert(r.at(x, y) > 0);
            assert(n[0] == (r.at(x, y - 1) > 0));
            assert(n[1] == (r.at(x + 1, y - 1) > 0));
            assert(n[2] == (r.at(x + 1, y) > 0));
            assert(n[3] == (r.at(x + 1, y + 1) > 0));
            assert(n[4] == (r.at(x, y + 1) > 0));
            assert(n[5] == (r.at(x - 1, y + 1) > 0));
            assert(n[6] == (r.at(x - 1, y) > 0));
            assert(n[7] == (r.at(x - 1, y - 1) > 0));
            if (y == y0 && x0 < x < x1) || (y == y0 + 1 && x0 <= x <= x1 - 1) {
                assert(!removable(r, x, y, true));
            } else {
                assert(removable(r, x, y, true));
            }
        } else {
            assert(r.at(x, y) == 0);
        }
    }
    let n = ring(r, x0, y0);
    lemma_ring_counts(n);
    assert(r.at(x0, y0) > 0);
    assert(n[0] == (r.at(x0, y0 - 1) > 0));
    assert(n[1] == (r.at(x0 + 1, y0 - 1) > 0));
    assert(n[2] == (r.at(x0 + 1, y0) > 0));
    assert(n[3] == (r.at(x0 + 1, y0 + 1) > 0));
    assert(n[4] == (r.at(x0, y0 + 1) > 0));
    assert(n[5] == (r.at(x0 - 1, y0 + 1) > 0));
    assert(n[6] == (r.at(x0 - 1, y0) > 0));
    assert(n[7] == (r.at(x0 - 1, y0 - 1) > 0));
}

/// On the two rows left by the first sub-iteration, the second removes the upper
/// row and both ends of the lower one.
proof fn lemma_second_pass_on_stepped_rows(r: Raster, x0: int, x1: int, y0: int)
    requires
        stepped_rows(r, x0, x1, y0),
    ensures
        rect_pixels(thin_pass(r, false), x0 + 1, x1 - 2, y0 + 1, y0 + 1),
{
    let t = thin_pass(r, false);
    lemma_thin_pass(r, false);
    assert forall|x: int, y: int| t.in_bounds(x, y) implies (#[trigger] t.at(x, y) > 0 <==> (
    y == y0 + 1 && x0 + 1 <= x <= x1 - 2)) by {
        assert(t.cells.dom().contains((x, y)));
        if (y == y0 && x0 < x < x1) || (y == y0 + 1 && x0 <= x <= x1 - 1) {
            let n = ring(r, x, y);
            lemma_ring_counts(n);
            assert(r.at(x, y) > 0);
            assert(n[0] == (r.at(x, y - 1) > 0));
            assert(n[1] == (r.at(x + 1, y - 1) > 0));
            assert(n[2] == (r.at(x + 1, y) > 0));
            assert(n[3] == (r.at(x + 1, y + 1) > 0));
            assert(n[4] == (r.at(x, y + 1) > 0));
            assert(n[5] == (r.at(x - 1, y + 1) > 0));
            assert(n[6] == (r.at(x - 1, y) > 0));
            assert(n[7] == (r.at(x - 1, y - 1) > 0));
            if y == y0 + 1 && x0 + 1 <= x <= x1 - 2 {
                assert(!removable(r, x, y, false));
            } else {
                assert(removable(r, x, y, false));
            }
        } else {
            assert(r.at(x, y) == 0);
        }
    }
}

/// Law: a straight stroke three pixels thick (columns `x0..=x1` of rows `y0`,
/// `y0 + 1` and `y0 + 2`, at least four pixels long and clear of the border)
/// thins to a one-pixel-wide line that is not empty: the middle row from `x0 + 1`
/// to `x1 - 2`.
pub proof fn lemma_three_thick_stroke_thins_to_line(r: Raster, x0: int, x1: int, y0: int)
    requires
        rect_pixels(r, x0, x1, y0, y0 + 2),
        x0 + 3 <= x1,
    ensures
        skeleton_of(r).same_shape(r),
        forall|x: int, y: int| #[trigger] skeleton_of(r).is_fg(x, y) <==> (y == y0 + 1 && x0 + 1 <= x
            <= x1 - 2),
        skeleton_of(r).is_fg(x0 + 1, y0 + 1),
{
    let a = thin_pass(r, true);
    let b = thin_pass(a, false);
    lemma_thin_pass(r, true);
    lemma_first_pass_on_three_thick(r, x0, x1, y0);
    assert(has_removable(r, true));
    lemma_thin_pass(a, false);
    lemma_second_pass_on_stepped_rows(a, x0, x1, y0);
    assert(skeleton_of(r) == skeleton_of(b));
    lemma_line_is_stable(b, x0 + 1, x1 - 2, y0 + 1, y0 + 1, true);
    lemma_line_is_stable(b, x0 + 1, x1 - 2, y0 + 1, y0 + 1, false);
    lemma_thin_pass(b, true);
    assert(thin_pass(b, true) == b);
    assert(skeleton_of(b) == b);
    assert forall|x: int, y: int| #[trigger] skeleton_of(r).is_fg(x, y) <==> (y == y0 + 1 && x0 + 1
        <= x <= x1 - 2) by {
        if y == y0 + 1 && x0 + 1 <= x <= x1 - 2 {
            assert(b.in_bounds(x, y));
        }
    }
}

/// Law: a straight stroke two pixels thick (columns `x0..=x1` of rows `y0` and
/// `y0 + 1`, at least three pixels long and clear of the border) thins to a
/// one-pixel-wide line that is not empty: the upper row without its two end
/// pixels.
pub proof fn lemma_two_thick_stroke_thins_to_line(r: Raster, x0: int, x1: int, y0: int)
    requires
        two_thick_stroke(r, x0, x1, y0),
    ensures
        skeleton_of(r).same_shape(r),
        forall|x: int, y: int| #[trigger] skeleton_of(r).is_fg(x, y) <==> (y == y0 && x0 < x < x1),
        skeleton_of(r).is_fg(x0 + 1, y0),
{
    let a = thin_pass(r, true);
    lemma_thin_pass(r, true);
    lemma_first_pass_on_stroke(r, x0, x1, y0);
    assert(has_removable(r, true));
    lemma_skeleton_after_first_pass(r, x0 + 1, x1 - 1, y0, y0);
    assert forall|x: int, y: int| #[trigger] skeleton_of(r).is_fg(x, y) <==> (y == y0 && x0 < x < x1) by {
        if y == y0 && x0 < x < x1 {
            assert(a.in_bounds(x, y));
        }
    }
}

/// Law: a straight vertical stroke two pixels thick (rows `y0..=y1` of columns
/// `x0` and `x0 + 1`, at least three pixels long and clear of the border) thins to
/// a one-pixel-wide line that is not empty: the left column without its two end
/// pixels.
pub proof fn lemma_two_thick_column_thins_to_line(r: Raster, x0: int, y0: int, y1: int)
    requires
        two_thick_column(r, x0, y0, y1),
    ensures
        skeleton_of(r).same_shape(r),
        forall|x: int, y: int| #[trigger] skeleton_of(r).is_fg(x, y) <==> (x == x0 && y0 < y < y1),
        skeleton_of(r).is_fg(x0, y0 + 1),
{
    let a = thin_pass(r, true);
    lemma_thin_pass(r, true);
    lemma_first_pass_on_column(r, x0, y0, y1);
    assert(has_removable(r, true));
    lemma_skeleton_after_first_pass(r, x0, x0, y0 + 1, y1 - 1);
    assert forall|x: int, y: int| #[trigger] skeleton_of(r).is_fg(x, y) <==> (x == x0 && y0 < y < y1) by {
        if x == x0 && y0 < y < y1 {
            assert(a.in_bounds(x, y));
        }
    }
}

/// The image dimensions for which the scan over interior pixels is defined.
pub open spec fn thinnable(r: Raster) -> bool {
    r.height >= 1 && (r.height >= 3 ==> r.width >= 1)
}

#[inline]
fn is_foreground(image: &GrayImage, x: u32, y: u32) -> (fg: bool)
    requires
        image.wf(),
        x < image@.width,
        y < image@.height,
    ensures
        fg == (image@.at(x as int, y as int) > 0),
{
    image.get_pixel(x, y) > 0
}

fn count_set(neighbors: &[bool; 8]) -> (n: usize)
    ensures
        n == count_true(neighbors@),
{
    let mut n: usize = 0;
    let mut i: usize = 0;
    while i < 8
        invariant
            i <= 8,
            neighbors@.len() == 8,
            n == count_true(neighbors@.subrange(0, i as int)),
            n <= i,
        decreases 8 - i,
    {
        proof {
            assert(neighbors@.subrange(0, i + 1).drop_last() =~= neighbors@.subrange(0, i as int));
        }
        if neighbors[i] {
            n = n + 1;
        }
        i = i + 1;
    }
    proof {
        assert(neighbors@.subrange(0, 8) =~= neighbors@);
    }
    n
}

/// The number of black-to-white steps going once round the eight neighbours.
pub fn count_transitions(neighbors: &[bool; 8]) -> (n: usize)
    ensures
        n == transitions(neighbors@),
{
    let mut n: usize = 0;
    let mut i: usize = 0;
    while i < 8
        invariant
            i <= 8,
            neighbors@.len() == 8,
            n == rises_upto(neighbors@, i as int),
            n <= i,
        decreases 8 - i,
    {
        if !neighbors[i] && neighbors[(i + 1) % 8] {
            n = n + 1;
        }
        i = i + 1;
    }
    n
}

/// Before `(x, y)` in row-major order.
pub open spec fn scan_before(p: (u32, u32), q: (u32, u32)) -> bool {
    p.1 < q.1 || (p.1 == q.1 && p.0 < q.0)
}

/// The pixels that pass the deletion test, in row-major order.
fn find_removable_pixels(image: &GrayImage, first_subiteration: bool) -> (removable_px: Vec<
    (u32, u32),
>)
    requires
        image.wf(),
        thinnable(image@),
    ensures
        forall|k: int|
            0 <= k < removable_px@.len() ==> removable(
                image@,
                (#[trigger] removable_px@[k]).0 as int,
                removable_px@[k].1 as int,
                first_subiteration,
            ),
        forall|x: int, y: int|
            removable(image@, x, y, first_subiteration) ==> exists|k: int|
                0 <= k < removable_px@.len() && #[trigger] removable_px@[k] == (x as u32, y as u32),
        forall|i: int, j: int|
            0 <= i < j < removable_px@.len() ==> scan_before(
                #[trigger] removable_px@[i],
                #[trigger] removable_px@[j],
            ),
{
    let (width, height) = image.dimensions();
    let ghost r = image@;
    let mut removable_px: Vec<(u32, u32)> = Vec::new();
    proof {
        image.lemma_valid();
    }

    let mut y: u32 = 1;
    while y < height - 1
        invariant
            width == r.width,
            height == r.height,
            r == image@,
            image.wf(),
            r.valid(),
            thinnable(r),
            1 <= y,
            y <= height - 1 || height <= 2,
            forall|k: int|
                0 <= k < removable_px@.len() ==> removable(
                    r,
                    (#[trigger] removable_px@[k]).0 as int,
                    removable_px@[k].1 as int,
                    first_subiteration,
                ) && removable_px@[k].1 < y,
            forall|xx: int, yy: int|
                removable(r, xx, yy, first_subiteration) && yy < y ==> exists|k: int|
                    0 <= k < removable_px@.len() && #[trigger] removable_px@[k] == (
                        xx as u32,
                        yy as u32,
                    ),
            forall|i: int, j: int|
                0 <= i < j < removable_px@.len() ==> scan_before(
                    #[trigger] removable_px@[i],
                    #[trigger] removable_px@[j],
                ),
        decreases height - y,
    {
        let mut x: u32 = 1;
        while x < width - 1
            invariant
                width == r.width,
                height == r.height,
                r == image@,
                image.wf(),
                r.valid(),
                1 <= y < height - 1,
                1 <= x,
                width >= 1,
                x <= width - 1 || width <= 1,
                forall|k: int|
                    0 <= k < removable_px@.len() ==> removable(
                        r,
                        (#[trigger] removable_px@[k]).0 as int,
                        removable_px@[k].1 as int,
                        first_subiteration,
                    ) && scan_before(removable_px@[k], (x, y)),
                forall|xx: int, yy: int|
                    removable(r, xx, yy, first_subiteration) && (yy < y || (yy == y && xx < x))
                        ==> exists|k: int|
                        0 <= k < removable_px@.len() && #[trigger] removable_px@[k] == (
                            xx as u32,
                            yy as u32,
                        ),
                forall|i: int, j: int|
                    0 <= i < j < removable_px@.len() ==> scan_before(
                        #[trigger] removable_px@[i],
                        #[trigger] removable_px@[j],
                    ),
            decreases width - x,
        {
            let ghost before = removable_px@;
            let keep = pixel_is_removable(image, x, y, first_subiteration);
            if keep {
                removable_px.push((x, y));
            }
            proof {
                assert forall|xx: int, yy: int|
                    removable(r, xx, yy, first_subiteration) && (yy < y || (yy == y && xx < x + 1))
                        implies exists|k: int|
                        0 <= k < removable_px@.len() && #[trigger] removable_px@[k] == (
                            xx as u32,
                            yy as u32,
                        ) by {
                    if yy == y && xx == x {
                        assert(removable_px@[removable_px@.len() - 1] == (xx as u32, yy as u32));
                    } else {
                        let k = choose|k: int|
                            0 <= k < before.len() && #[trigger] before[k] == (xx as u32, yy as u32);
                        assert(removable_px@[k] == before[k]);
                    }
                }
            }
            x = x + 1;
        }
        proof {
            assert forall|xx: int, yy: int|
                removable(r, xx, yy, first_subiteration) && yy < y + 1 implies exists|k: int|
                    0 <= k < removable_px@.len() && #[trigger] removable_px@[k] == (
                        xx as u32,
                        yy as u32,
                    ) by {
                if yy == y {
                    assert(xx < x);
                }
            }
        }
        y = y + 1;
    }
    proof {
        assert forall|xx: int, yy: int| removable(r, xx, yy, first_subiteration) implies exists|k: int|
            0 <= k < removable_px@.len() && #[trigger] removable_px@[k] == (xx as u32, yy as u32) by {
            assert(yy < y);
        }
    }
    removable_px
}

/// Whether the interior pixel `(x, y)` passes the deletion test.
fn pixel_is_removable(image: &GrayImage, x: u32, y: u32, first_subiteration: bool) -> (res: bool)
    requires
        image.wf(),
        1 <= x < image@.width - 1,
        1 <= y < image@.height - 1,
    ensures
        res == removable(image@, x as int, y as int, first_subiteration),
{
    proof {
        image.lemma_valid();
    }
    if image.get_pixel(x, y) == 0 {
        return false;
    }
    let p2 = is_foreground(image, x, y - 1);
    let p3 = is_foreground(image, x + 1, y - 1);
    let p4 = is_foreground(image, x + 1, y);
    let p5 = is_foreground(image, x + 1, y + 1);
    let p6 = is_foreground(image, x, y + 1);
    let p7 = is_foreground(image, x - 1, y + 1);
    let p8 = is_foreground(image, x - 1, y);
    let p9 = is_foreground(image, x - 1, y - 1);

    let neighbors = [p2, p3, p4, p5, p6, p7, p8, p9];
    proof {
        assert(neighbors@ =~= ring(image@, x as int, y as int));
    }

    let b = count_set(&neighbors);
    if !(2 <= b && b <= 6) {
        return false;
    }
    let a = count_transitions(&neighbors);
    if a != 1 {
        return false;
    }
    if first_subiteration {
        if (p8 || p2) && p6 && p4 {
            return false;
        }
    } else if (p6 || p4) && p8 && p2 {
        return false;
    }
    true
}

/// Blackens the listed pixels.
fn clear_pixels(image: &mut GrayImage, pixels: &Vec<(u32, u32)>)
    requires
        old(image).wf(),
        forall|k: int|
            0 <= k < pixels@.len() ==> old(image)@.in_bounds(
                (#[trigger] pixels@[k]).0 as int,
                pixels@[k].1 as int,
            ),
    ensures
        final(image).wf(),
        final(image)@.same_shape(old(image)@),
        forall|x: int, y: int|
            #![trigger final(image)@.at(x, y)]
            old(image)@.in_bounds(x, y) ==> final(image)@.at(x, y) == if exists|k: int|
                0 <= k < pixels@.len() && #[trigger] pixels@[k] == (x as u32, y as u32) {
                0u8
            } else {
                old(image)@.at(x, y)
            },
{
    let ghost start = image@;
    proof {
        image.lemma_valid();
    }
    let mut i: usize = 0;
    while i < pixels.len()
        invariant
            i <= pixels@.len(),
            image.wf(),
            image@.valid(),
            image@.same_shape(start),
            start.valid(),
            forall|k: int|
                0 <= k < pixels@.len() ==> start.in_bounds(
                    (#[trigger] pixels@[k]).0 as int,
                    pixels@[k].1 as int,
                ),
            forall|x: int, y: int|
                #![trigger image@.at(x, y)]
                start.in_bounds(x, y) ==> image@.at(x, y) == if exists|k: int|
                    0 <= k < i && #[trigger] pixels@[k] == (x as u32, y as u32) {
                    0u8
                } else {
                    start.at(x, y)
                },
        decreases pixels@.len() - i,
    {
        let (px, py) = pixels[i];
        proof {
            assert(start.in_bounds(pixels@[i as int].0 as int, pixels@[i as int].1 as int));
        }
        let ghost before = image@;
        image.put_pixel(px, py, 0);
        proof {
            image.lemma_valid();
            assert forall|x: int, y: int|
                #![trigger image@.at(x, y)]
                start.in_bounds(x, y) implies image@.at(x, y) == if exists|k: int|
                    0 <= k < i + 1 && #[trigger] pixels@[k] == (x as u32, y as u32) {
                    0u8
                } else {
                    start.at(x, y)
                } by {
                assert(before.at(x, y) == if exists|k: int|
                    0 <= k < i && #[trigger] pixels@[k] == (x as u32, y as u32) {
                    0u8
                } else {
                    start.at(x, y)
                });
                if x == px && y == py {
                    assert(pixels@[i as int] == (x as u32, y as u32));
                } else {
                    assert(image@.at(x, y) == before.at(x, y));
                    if exists|k: int| 0 <= k < i + 1 && #[trigger] pixels@[k] == (x as u32, y as u32) {
                        let k = choose|k: int|
                            0 <= k < i + 1 && #[trigger] pixels@[k] == (x as u32, y as u32);
                        assert(k != i);
                    }
                }
            }
        }
        i = i + 1;
    }
}

/// One sub-iteration on the image; returns whether it removed any pixel.
fn thin_step(image: &mut GrayImage, first_subiteration: bool) -> (changed: bool)
    requires
        old(image).wf(),
        thinnable(old(image)@),
    ensures
        final(image).wf(),
        final(image)@ == thin_pass(old(image)@, first_subiteration),
        changed == has_removable(old(image)@, first_subiteration),
{
    let ghost r = image@;
    proof {
        image.lemma_valid();
    }
    let to_remove = find_removable_pixels(image, first_subiteration);
    let changed = to_remove.len() > 0;
    proof {
        if changed {
            let p = to_remove@[0];
            assert(removable(r, p.0 as int, p.1 as int, first_subiteration));
        } else {
            assert forall|x: int, y: int| !removable(r, x, y, first_subiteration) by {
                if removable(r, x, y, first_subiteration) {
                    let k = choose|k: int|
                        0 <= k < to_remove@.len() && #[trigger] to_remove@[k] == (x as u32, y as u32);
                }
            }
        }
    }
    if changed {
        proof {
            assert forall|k: int| 0 <= k < to_remove@.len() implies r.in_bounds(
                (#[trigger] to_remove@[k]).0 as int,
                to_remove@[k].1 as int,
            ) by {
                assert(removable(r, to_remove@[k].0 as int, to_remove@[k].1 as int, first_subiteration));
            }
        }
        clear_pixels(image, &to_remove);
    }
    proof {
        image.lemma_valid();
        lemma_thin_pass(r, first_subiteration);
        let t = thin_pass(r, first_subiteration);
        assert forall|x: int, y: int| r.in_bounds(x, y) implies #[trigger] image@.at(x, y) == t.at(x, y) by {
            assert(t.cells.dom().contains((x, y)));
            if changed {
                if removable(r, x, y, first_subiteration) {
                    let k = choose|k: int|
                        0 <= k < to_remove@.len() && #[trigger] to_remove@[k] == (x as u32, y as u32);
                    assert(to_remove@[k] == (x as u32, y as u32));
                } else {
                    if exists|k: int| 0 <= k < to_remove@.len() && #[trigger] to_remove@[k] == (x as u32, y as u32) {
                        let k = choose|k: int|
                            0 <= k < to_remove@.len() && #[trigger] to_remove@[k] == (x as u32, y as u32);
                        assert(removable(r, to_remove@[k].0 as int, to_remove@[k].1 as int, first_subiteration));
                    }
                }
            } else {
                assert(!removable(r, x, y, first_subiteration));
            }
        }
        lemma_raster_ext(image@, t);
    }
    changed
}

/// Thins the strokes of a binary image to one-pixel-wide lines (Zhang–Suen),
/// repeating both sub-iterations until neither removes a pixel.
pub fn skeletonize(image: &GrayImage) -> (skeleton: GrayImage)
    requires
        image.wf(),
        thinnable(image@),
    ensures
        skeleton.wf(),
        skeleton@ == skeleton_of(image@),
{
    let mut current = image.duplicate();
    let mut changed = true;
    proof {
        image.lemma_valid();
    }

    while changed
        invariant
            current.wf(),
            current@.valid(),
            current@.same_shape(image@),
            thinnable(current@),
            skeleton_of(current@) == skeleton_of(image@),
            !changed ==> skeleton_of(current@) == current@,
        decreases current@.fg_count() + if changed {
            1int
        } else {
            0int
        },
    {
        let ghost r = current@;
        changed = false;

        let removed_first = thin_step(&mut current, true);
        if removed_first {
            changed = true;
        }
        proof {
            lemma_thin_pass(r, true);
        }
        let ghost a = current@;
        let removed_second = thin_step(&mut current, false);
        if removed_second {
            changed = true;
        }
        proof {
            lemma_thin_pass(a, false);
            current.lemma_valid();
            if !changed {
                assert(a == r);
                assert(current@ == r);
            }
        }
    }
    current
}

} // verus!
