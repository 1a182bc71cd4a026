//! Digital straight lines (Bresenham) and contour closing.

use vstd::prelude::*;

verus! {

/// The coordinate `k` pixels from `from` in the direction of `to`.
pub open spec fn along(from: int, to: int, k: int) -> int {
    if from < to {
        from + k
    } else {
        from - k
    }
}

pub open spec fn abs_diff(a: int, b: int) -> int {
    if a <= b {
        b - a
    } else {
        a - b
    }
}

/// Midpoint rule. Having advanced `a` pixels along x and `b` along y on a line of
/// extent `(dx, dy)`, step along x when the ideal line is more than half a pixel
/// ahead in x at height `b + 1/2`, and along y when it is more than half a pixel
/// ahead in y at `a + 1/2`; both may happen at once (a diagonal step).
pub open spec fn line_advance(dx: int, dy: int, a: int, b: int) -> (int, int) {
    let step_x = dy * (2 * a + 1) < 2 * dx * (b + 1);
    let step_y = dx * (2 * b + 1) < 2 * dy * (a + 1);
    (if step_x {
        a + 1
    } else {
        a
    }, if step_y {
        b + 1
    } else {
        b
    })
}

/// Each advance stays inside the extent and moves at least one pixel, at most one per axis.
pub proof fn lemma_line_advance(dx: int, dy: int, a: int, b: int)
    requires
        0 <= a <= dx,
        0 <= b <= dy,
        !(a == dx && b == dy),
    ensures
        a <= line_advance(dx, dy, a, b).0 <= a + 1,
        b <= line_advance(dx, dy, a, b).1 <= b + 1,
        line_advance(dx, dy, a, b).0 <= dx,
        line_advance(dx, dy, a, b).1 <= dy,
        line_advance(dx, dy, a, b).0 + line_advance(dx, dy, a, b).1 > a + b,
{
    let step_x = dy * (2 * a + 1) < 2 * dx * (b + 1);
    let step_y = dx * (2 * b + 1) < 2 * dy * (a + 1);
    if a == dx {
        assert(!step_x) by (nonlinear_arith)
            requires
                a == dx,
                0 <= b < dy,
                0 <= dx,
                step_x == (dy * (2 * a + 1) < 2 * dx * (b + 1)),
        ;
    }
    if b == dy {
        assert(!step_y) by (nonlinear_arith)
            requires
                b == dy,
                0 <= a < dx,
                0 <= dy,
                step_y == (dx * (2 * b + 1) < 2 * dy * (a + 1)),
        ;
    }
    assert(step_x || step_y) by (nonlinear_arith)
        requires
            0 <= a <= dx,
            0 <= b <= dy,
            !(a == dx && b == dy),
            step_x == (dy * (2 * a + 1) < 2 * dx * (b + 1)),
            step_y == (dx * (2 * b + 1) < 2 * dy * (a + 1)),
    ;
}

/// The offsets `(a, b)` visited from `(a, b)` to `(dx, dy)` by the midpoint rule.
pub open spec fn line_offsets(dx: int, dy: int, a: int, b: int) -> Seq<(int, int)>
    decreases (dx - a) + (dy - b),
    when 0 <= a <= dx && 0 <= b <= dy
{
    if a == dx && b == dy {
        seq![(a, b)]
    } else {
        proof {
            lemma_line_advance(dx, dy, a, b);
        }
        let next = line_advance(dx, dy, a, b);
        seq![(a, b)] + line_offsets(dx, dy, next.0, next.1)
    }
}

/// The pixels of the digital line from `from` to `to`, both ends included.
pub open spec fn line_points(from: (i32, i32), to: (i32, i32)) -> Seq<(i32, i32)> {
    let dx = abs_diff(from.0 as int, to.0 as int);
    let dy = abs_diff(from.1 as int, to.1 as int);
    line_offsets(dx, dy, 0, 0).map_values(
        |o: (int, int)|
            (
                along(from.0 as int, to.0 as int, o.0) as i32,
                along(from.1 as int, to.1 as int, o.1) as i32,
            ),
    )
}

pub open spec fn chebyshev_step(p: (i32, i32), q: (i32, i32)) -> bool {
    p != q && -1 <= q.0 - p.0 <= 1 && -1 <= q.1 - p.1 <= 1
}

proof fn lemma_offsets_shape(dx: int, dy: int, a: int, b: int)
    requires
        0 <= a <= dx,
        0 <= b <= dy,
    ensures
        line_offsets(dx, dy, a, b).len() >= 1,
        line_offsets(dx, dy, a, b)[0] == (a, b),
        line_offsets(dx, dy, a, b).last() == (dx, dy),
        forall|k: int|
            0 <= k < line_offsets(dx, dy, a, b).len() ==> {
                let o = #[trigger] line_offsets(dx, dy, a, b)[k];
                a <= o.0 <= dx && b <= o.1 <= dy
            },
        forall|k: int|
            0 <= k < line_offsets(dx, dy, a, b).len() - 1 ==> {
                let o = #[trigger] line_offsets(dx, dy, a, b)[k];
                let o2 = line_offsets(dx, dy, a, b)[k + 1];
                o.0 <= o2.0 <= o.0 + 1 && o.1 <= o2.1 <= o.1 + 1 && o.0 + o.1 < o2.0 + o2.1
            },
    decreases (dx - a) + (dy - b),
{
    if !(a == dx && b == dy) {
        lemma_line_advance(dx, dy, a, b);
        let next = line_advance(dx, dy, a, b);
        lemma_offsets_shape(dx, dy, next.0, next.1);
        let rest = line_offsets(dx, dy, next.0, next.1);
        let all = line_offsets(dx, dy, a, b);
        assert(all == seq![(a, b)] + rest);
        assert forall|k: int| 0 <= k < all.len() - 1 implies {
            let o = #[trigger] all[k];
            let o2 = all[k + 1];
            o.0 <= o2.0 <= o.0 + 1 && o.1 <= o2.1 <= o.1 + 1 && o.0 + o.1 < o2.0 + o2.1
        } by {
            if k > 0 {
                assert(all[k] == rest[k - 1]);
                assert(all[k + 1] == rest[k]);
            }
        }
        assert forall|k: int| 0 <= k < all.len() implies {
            let o = #[trigger] all[k];
            a <= o.0 <= dx && b <= o.1 <= dy
        } by {
            if k > 0 {
                assert(all[k] == rest[k - 1]);
            }
        }
    }
}

/// A digital line starts at `from`, ends at `to`, and every next pixel touches the one before.
pub proof fn lemma_line_points_shape(from: (i32, i32), to: (i32, i32))
    ensures
        line_points(from, to).len() >= 1,
        line_points(from, to)[0] == from,
        line_points(from, to).last() == to,
        forall|k: int|
            0 <= k < line_points(from, to).len() - 1 ==> chebyshev_step(
                #[trigger] line_points(from, to)[k],
                line_points(from, to)[k + 1],
            ),
{
    let dx = abs_diff(from.0 as int, to.0 as int);
    let dy = abs_diff(from.1 as int, to.1 as int);
    lemma_offsets_shape(dx, dy, 0, 0);
    let offs = line_offsets(dx, dy, 0, 0);
    let pts = line_points(from, to);
    assert forall|k: int| 0 <= k < offs.len() implies {
        let o = #[trigger] offs[k];
        pts[k] == (
            along(from.0 as int, to.0 as int, o.0) as i32,
            along(from.1 as int, to.1 as int, o.1) as i32,
        ) && i32::MIN <= along(from.0 as int, to.0 as int, o.0) <= i32::MAX && i32::MIN <= along(
            from.1 as int,
            to.1 as int,
            o.1,
        ) <= i32::MAX
    } by {
        let o = offs[k];
        assert(0 <= o.0 <= dx && 0 <= o.1 <= dy);
    }
    assert(offs.last() == offs[offs.len() - 1]);
    assert(pts.last() == pts[pts.len() - 1]);
    assert forall|k: int| 0 <= k < pts.len() - 1 implies chebyshev_step(
        #[trigger] pts[k],
        pts[k + 1],
    ) by {
        let o = offs[k];
        let o2 = offs[k + 1];
        assert(o.0 <= o2.0 <= o.0 + 1 && o.1 <= o2.1 <= o.1 + 1 && o.0 + o.1 < o2.0 + o2.1);
        assert(pts[k + 1] == (
            along(from.0 as int, to.0 as int, o2.0) as i32,
            along(from.1 as int, to.1 as int, o2.1) as i32,
        ));
    }
}

/// All pixels of the digital line from `from` to `to`, both ends included.
pub fn bresenham_line(from: (i32, i32), to: (i32, i32)) -> (points: Vec<(i32, i32)>)
    ensures
        points@ == line_points(from, to),
{
    let mut points: Vec<(i32, i32)> = Vec::new();
    let (mut x0, mut y0) = from;
    let (x1, y1) = to;

    let dx: i64 = if x0 <= x1 {
        x1 as i64 - x0 as i64
    } else {
        x0 as i64 - x1 as i64
    };
    let dy: i64 = if y0 <= y1 {
        y1 as i64 - y0 as i64
    } else {
        y0 as i64 - y1 as i64
    };
    let sx: i32 = if x0 < x1 {
        1
    } else {
        -1
    };
    let sy: i32 = if y0 < y1 {
        1
    } else {
        -1
    };
    let mut err: i64 = dx - dy;

    let ghost ddx = dx as int;
    let ghost ddy = dy as int;
    let ghost mut a: int = 0;
    let ghost mut b: int = 0;
    let ghost full = line_offsets(ddx, ddy, 0, 0);
    let ghost mut done: Seq<(int, int)> = seq![];
    let ghost place = |o: (int, int)|
        (along(from.0 as int, to.0 as int, o.0) as i32, along(from.1 as int, to.1 as int, o.1) as i32);

    proof {
        assert(err == dx * (1 + b) - dy * (1 + a)) by (nonlinear_arith)
            requires
                a == 0,
                b == 0,
                err == dx - dy,
        ;
        assert(done + line_offsets(ddx, ddy, a, b) =~= full);
    }
    loop
        invariant_except_break
            full == done + line_offsets(ddx, ddy, a, b),
        invariant
            ddx == dx,
            ddy == dy,
            dx == abs_diff(from.0 as int, to.0 as int),
            dy == abs_diff(from.1 as int, to.1 as int),
            sx == (if from.0 < to.0 {
                1int
            } else {
                -1int
            }),
            sy == (if from.1 < to.1 {
                1int
            } else {
                -1int
            }),
            x0 == along(from.0 as int, to.0 as int, a),
            y0 == along(from.1 as int, to.1 as int, b),
            x1 == to.0,
            y1 == to.1,
            0 <= a <= dx,
            0 <= b <= dy,
            err == dx * (1 + b) - dy * (1 + a),
            -2 * dy <= err <= 2 * dx,
            full == line_offsets(ddx, ddy, 0, 0),
            points@ == done.map_values(place),
            place == (|o: (int, int)|
                (
                    along(from.0 as int, to.0 as int, o.0) as i32,
                    along(from.1 as int, to.1 as int, o.1) as i32,
                )),
        ensures
            points@ == full.map_values(place),
        decreases (dx - a) + (dy - b),
    {
        proof {
            assert(place((a, b)) == (x0, y0));
        }
        points.push((x0, y0));
        proof {
            done = done.push((a, b));
        }

        if x0 == x1 && y0 == y1 {
            proof {
                assert(a == dx && b == dy);
                assert(line_offsets(ddx, ddy, a, b) == seq![(a, b)]);
                assert(full == done);
                assert(points@ =~= done.map_values(place));
            }
            break;
        }
        proof {
            if a == dx {
                assert(x0 == x1);
            }
            if b == dy {
                assert(y0 == y1);
            }
            assert(!(a == dx && b == dy));
            lemma_line_advance(ddx, ddy, a, b);
        }
        let ghost next = line_advance(ddx, ddy, a, b);
        proof {
            assert(line_offsets(ddx, ddy, a, b) == seq![(a, b)] + line_offsets(
                ddx,
                ddy,
                next.0,
                next.1,
            ));
            assert(full == done + line_offsets(ddx, ddy, next.0, next.1));
            assert((2 * err > -dy) == (dy * (2 * a + 1) < 2 * dx * (b + 1))) by (nonlinear_arith)
                requires
                    err == dx * (1 + b) - dy * (1 + a),
            ;
            assert((2 * err < dx) == (dx * (2 * b + 1) < 2 * dy * (a + 1))) by (nonlinear_arith)
                requires
                    err == dx * (1 + b) - dy * (1 + a),
            ;
        }

        let e2: i64 = 2 * err;
        if e2 > -dy {
            let ghost e_before = err;
            err = err - dy;
            x0 = x0 + sx;
            proof {
                a = a + 1;
                assert(err == dx * (1 + b) - dy * (1 + a)) by (nonlinear_arith)
                    requires
                        e_before == dx * (1 + b) - dy * (1 + (a - 1)),
                        err == e_before - dy,
                ;
            }
        }
        if e2 < dx {
            let ghost e_before = err;
            err = err + dx;
            y0 = y0 + sy;
            proof {
                b = b + 1;
                assert(err == dx * (1 + b) - dy * (1 + a)) by (nonlinear_arith)
                    requires
                        e_before == dx * (1 + (b - 1)) - dy * (1 + a),
                        err == e_before + dx,
                ;
            }
        }
        proof {
            assert(a == next.0 && b == next.1);
        }
    }
    points
}

/// The contour as given when it has fewer than two points or already ends where it
/// starts; otherwise followed by the digital line from its last point back to its first.
pub open spec fn closed_contour(contour: Seq<(i32, i32)>) -> Seq<(i32, i32)> {
    if contour.len() < 2 || contour[0] == contour.last() {
        contour
    } else {
        contour + line_points(contour.last(), contour[0])
    }
}

/// Law: every pixel of a digital line lies in the box spanned by its two ends.
pub proof fn lemma_line_points_within(from: (i32, i32), to: (i32, i32))
    ensures
        forall|k: int|
            0 <= k < line_points(from, to).len() ==> {
                let p = #[trigger] line_points(from, to)[k];
                &&& (from.0 <= p.0 <= to.0 || to.0 <= p.0 <= from.0)
                &&& (from.1 <= p.1 <= to.1 || to.1 <= p.1 <= from.1)
            },
{
    let dx = abs_diff(from.0 as int, to.0 as int);
    let dy = abs_diff(from.1 as int, to.1 as int);
    lemma_offsets_shape(dx, dy, 0, 0);
    let offs = line_offsets(dx, dy, 0, 0);
    let pts = line_points(from, to);
    assert forall|k: int| 0 <= k < pts.len() implies {
        let p = #[trigger] pts[k];
        &&& (from.0 <= p.0 <= to.0 || to.0 <= p.0 <= from.0)
        &&& (from.1 <= p.1 <= to.1 || to.1 <= p.1 <= from.1)
    } by {
        let o = offs[k];
        assert(0 <= o.0 <= dx && 0 <= o.1 <= dy);
        assert(pts[k] == (
            along(from.0 as int, to.0 as int, o.0) as i32,
            along(from.1 as int, to.1 as int, o.1) as i32,
        ));
    }
}

/// Law: closing a contour whose points lie in a `width` by `height` grid keeps
/// every point in the grid.
pub proof fn lemma_closed_contour_within(contour: Seq<(i32, i32)>, width: int, height: int)
    requires
        forall|k: int|
            0 <= k < contour.len() ==> 0 <= (#[trigger] contour[k]).0 < width && 0 <= contour[k].1
                < height,
    ensures
        forall|k: int|
            0 <= k < closed_contour(contour).len() ==> 0 <= (#[trigger] closed_contour(contour)[k]).0
                < width && 0 <= closed_contour(contour)[k].1 < height,
{
    let c = closed_contour(contour);
    if contour.len() >= 2 && contour[0] != contour.last() {
        let l = line_points(contour.last(), contour[0]);
        lemma_line_points_within(contour.last(), contour[0]);
        assert(contour.last() == contour[contour.len() - 1]);
        assert forall|k: int| 0 <= k < c.len() implies 0 <= (#[trigger] c[k]).0 < width && 0 <= c[k].1
            < height by {
            if k >= contour.len() {
                assert(c[k] == l[k - contour.len()]);
            }
        }
    }
}

/// Law: a closed contour starts and ends at the same point, keeps the contour as
/// its beginning, and closing it again changes nothing.
pub proof fn lemma_close_contour_idempotent(contour: Seq<(i32, i32)>)
    ensures
        contour.len() >= 2 ==> closed_contour(contour)[0] == closed_contour(contour).last(),
        closed_contour(contour).subrange(0, contour.len() as int) == contour,
        closed_contour(closed_contour(contour)) == closed_contour(contour),
{
    let c = closed_contour(contour);
    if contour.len() >= 2 && contour[0] != contour.last() {
        lemma_line_points_shape(contour.last(), contour[0]);
        let l = line_points(contour.last(), contour[0]);
        assert(c[0] == contour[0]);
        assert(c.last() == l.last());
        assert(c.subrange(0, contour.len() as int) =~= contour);
    } else {
        assert(c.subrange(0, contour.len() as int) =~= contour);
    }
}

/// Closes a contour by drawing the line from its last point back to its first.
pub fn close_contour(contour: Vec<(i32, i32)>) -> (closed: Vec<(i32, i32)>)
    ensures
        closed@ == closed_contour(contour@),
        contour@.len() >= 2 ==> closed@.len() >= 2 && closed@.last() == closed@[0],
        closed@.subrange(0, contour@.len() as int) == contour@,
{
    let mut contour = contour;
    if contour.len() < 2 {
        proof {
            assert(contour@.subrange(0, contour@.len() as int) =~= contour@);
        }
        return contour;
    }

    let first = contour[0];
    let last = contour[contour.len() - 1];

    if first.0 != last.0 || first.1 != last.1 {
        let closing_line = bresenham_line(last, first);
        proof {
            lemma_line_points_shape(last, first);
        }
        let ghost before = contour@;
        let mut i: usize = 0;
        while i < closing_line.len()
            invariant
                i <= closing_line@.len(),
                contour@ == before + closing_line@.subrange(0, i as int),
            decreases closing_line@.len() - i,
        {
            contour.push(closing_line[i]);
            i = i + 1;
            proof {
                assert(closing_line@.subrange(0, i as int) =~= closing_line@.subrange(
                    0,
                    i - 1,
                ).push(closing_line@[i - 1]));
            }
        }
        proof {
            assert(closing_line@.subrange(0, i as int) =~= closing_line@);
            assert(contour@.subrange(0, before.len() as int) =~= before);
            assert(contour@.last() == closing_line@.last());
        }
    } else {
        proof {
            assert(contour@.subrange(0, contour@.len() as int) =~= contour@);
        }
    }
    contour
}

/// Appends every point of `src` to `dst`, in order.
pub fn extend_points(dst: &mut Vec<(i32, i32)>, src: &Vec<(i32, i32)>)
    ensures
        final(dst)@ == old(dst)@ + src@,
{
    let ghost before = dst@;
    let mut i: usize = 0;
    while i < src.len()
        invariant
            i <= src@.len(),
            dst@ == before + src@.subrange(0, i as int),
        decreases src@.len() - i,
    {
        dst.push(src[i]);
        i = i + 1;
        proof {
            assert(src@.subrange(0, i as int) =~= src@.subrange(0, i - 1).push(src@[i - 1]));
        }
    }
    proof {
        assert(src@.subrange(0, i as int) =~= src@);
    }
}

} // verus!
