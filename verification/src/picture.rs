//! RGB pictures of the pipeline's intermediate results: which pixels belong to
//! the kept and the dropped components, and the traced strokes in turn.

use vstd::prelude::*;
use crate::components::holds;
use crate::linking::{Component, paths};
use crate::observer::{component_color, palette_color};
use crate::raster::{GrayImage, cell_index, lemma_cell_index_bounds, lemma_cell_index_injective, pos};

verus! {

/// The abstract content of an RGB picture: its size and the colour of every pixel
/// inside it, keyed by `(x, y)`.
pub struct Picture {
    pub width: int,
    pub height: int,
    pub cells: Map<(int, int), (u8, u8, u8)>,
}

impl Picture {
    pub open spec fn in_bounds(self, x: int, y: int) -> bool {
        0 <= x < self.width && 0 <= y < self.height
    }

    pub open spec fn at(self, x: int, y: int) -> (u8, u8, u8) {
        self.cells[(x, y)]
    }
}

/// An all-black picture of the given size.
pub open spec fn black_picture(width: int, height: int) -> Picture {
    Picture {
        width,
        height,
        cells: Map::new(
            |p: (int, int)| 0 <= p.0 < width && 0 <= p.1 < height,
            |p: (int, int)| (0u8, 0u8, 0u8),
        ),
    }
}

/// An RGB image: `height` rows of `width` pixels, three bytes (red, green, blue)
/// per pixel, stored row by row.
pub struct RgbImage {
    width: u32,
    height: u32,
    channels: Vec<u8>,
}

/// Position of the first byte of pixel `(x, y)`.
pub open spec fn channel_index(width: int, x: int, y: int) -> int {
    3 * cell_index(width, x, y)
}

impl View for RgbImage {
    type V = Picture;

    closed spec fn view(&self) -> Picture {
        Picture {
            width: self.width as int,
            height: self.height as int,
            cells: Map::new(
                |p: (int, int)| 0 <= p.0 < self.width && 0 <= p.1 < self.height,
                |p: (int, int)|
                    {
                        let i = channel_index(self.width as int, p.0, p.1);
                        (self.channels@[i], self.channels@[i + 1], self.channels@[i + 2])
                    },
            ),
        }
    }
}

proof fn lemma_channel_bounds(width: int, height: int, x: int, y: int)
    requires
        0 <= x < width,
        0 <= y < height,
    ensures
        0 <= channel_index(width, x, y),
        channel_index(width, x, y) + 2 < 3 * (width * height),
{
    lemma_cell_index_bounds(width, height, x, y);
}

impl RgbImage {
    /// Three bytes per pixel, and both sides fit an `i32`.
    pub closed spec fn wf(&self) -> bool {
        &&& self.channels@.len() == 3 * (self.width * self.height)
        &&& self.width <= i32::MAX
        &&& self.height <= i32::MAX
    }

    /// The row-major buffer of channel bytes.
    pub closed spec fn raw(&self) -> Seq<u8> {
        self.channels@
    }

    /// A black picture of the given size.
    pub fn black(width: u32, height: u32) -> (img: RgbImage)
        requires
            width <= i32::MAX,
            height <= i32::MAX,
            3 * (width * height) <= usize::MAX,
        ensures
            img.wf(),
            img@.width == width,
            img@.height == height,
            forall|x: int, y: int| img@.in_bounds(x, y) ==> #[trigger] img@.at(x, y) == (0u8, 0u8, 0u8),
            img@ == black_picture(width as int, height as int),
    {
        let n: usize = 3 * ((width as usize) * (height as usize));
        let mut channels: Vec<u8> = Vec::new();
        let mut i: usize = 0;
        while i < n
            invariant
                i <= n,
                channels@.len() == i,
                forall|j: int| 0 <= j < i ==> channels@[j] == 0,
            decreases n - i,
        {
            channels.push(0u8);
            i = i + 1;
        }
        let img = RgbImage { width, height, channels };
        proof {
            assert forall|x: int, y: int| img@.in_bounds(x, y) implies #[trigger] img@.at(x, y) == (
                0u8,
                0u8,
                0u8,
            ) by {
                lemma_channel_bounds(width as int, height as int, x, y);
            }
            assert forall|p: (int, int)| img@.cells.dom().contains(p) implies img@.cells[p] == (
                0u8,
                0u8,
                0u8,
            ) by {
                assert(img@.at(p.0, p.1) == (0u8, 0u8, 0u8));
            }
            assert(img@.cells =~= black_picture(width as int, height as int).cells);
        }
        img
    }

    /// Wraps a row-major buffer of channel bytes; `None` unless it holds exactly
    /// three bytes per pixel.
    pub fn from_raw(width: u32, height: u32, channels: Vec<u8>) -> (img: Option<RgbImage>)
        ensures
            img.is_some() <==> (width <= i32::MAX && height <= i32::MAX && channels@.len() == 3 * (
            width * height)),
            img matches Some(i) ==> i.wf() && i@.width == width && i@.height == height && i.raw()
                == channels@,
    {
        if width > 0x7fff_ffff || height > 0x7fff_ffff {
            return None;
        }
        let w = width as usize;
        let h = height as usize;
        let n = channels.len();
        if h != 0 && w > usize::MAX / h {
            proof {
                assert(w * h > usize::MAX) by (nonlinear_arith)
                    requires
                        h > 0,
                        w > usize::MAX / h,
                ;
            }
            return None;
        }
        proof {
            if h != 0 {
                assert(w * h <= usize::MAX) by (nonlinear_arith)
                    requires
                        h > 0,
                        w <= usize::MAX / h,
                ;
            }
        }
        let cells = w * h;
        if cells > usize::MAX / 3 {
            return None;
        }
        if n != 3 * cells {
            return None;
        }
        Some(RgbImage { width, height, channels })
    }

    /// The row-major buffer of channel bytes.
    pub fn as_raw(&self) -> (raw: &Vec<u8>)
        ensures
            raw@ == self.raw(),
    {
        &self.channels
    }

    /// `(width, height)`.
    pub fn dimensions(&self) -> (d: (u32, u32))
        ensures
            d.0 == self@.width,
            d.1 == self@.height,
    {
        (self.width, self.height)
    }

    pub fn get_pixel(&self, x: u32, y: u32) -> (color: (u8, u8, u8))
        requires
            self.wf(),
            x < self@.width,
            y < self@.height,
        ensures
            color == self@.at(x as int, y as int),
    {
        let ww = self.width as usize;
        proof {
            lemma_channel_bounds(ww as int, self.height as int, x as int, y as int);
        }
        let len = self.channels.len();
        let i: usize = 3 * ((y as usize) * ww + (x as usize));
        proof {
            assert(i + 2 < len);
        }
        (self.channels[i], self.channels[i + 1], self.channels[i + 2])
    }

    pub fn put_pixel(&mut self, x: u32, y: u32, color: (u8, u8, u8))
        requires
            old(self).wf(),
            x < old(self)@.width,
            y < old(self)@.height,
        ensures
            final(self).wf(),
            final(self)@.width == old(self)@.width,
            final(self)@.height == old(self)@.height,
            forall|a: int, b: int|
                final(self)@.in_bounds(a, b) ==> #[trigger] final(self)@.at(a, b) == if a == x && b
                    == y {
                    color
                } else {
                    old(self)@.at(a, b)
                },
    {
        let ww = self.width as usize;
        proof {
            lemma_channel_bounds(ww as int, self.height as int, x as int, y as int);
        }
        let ghost before = self@;
        let len = self.channels.len();
        let i: usize = 3 * ((y as usize) * ww + (x as usize));
        proof {
            assert(i + 2 < len);
        }
        self.channels.set(i, color.0);
        self.channels.set(i + 1, color.1);
        self.channels.set(i + 2, color.2);
        proof {
            assert forall|a: int, b: int| self@.in_bounds(a, b) implies #[trigger] self@.at(a, b)
                == if a == x && b == y {
                color
            } else {
                before.at(a, b)
            } by {
                lemma_channel_bounds(self.width as int, self.height as int, a, b);
                if !(a == x && b == y) {
                    let j = channel_index(self.width as int, a, b);
                    if cell_index(self.width as int, a, b) == cell_index(
                        self.width as int,
                        x as int,
                        y as int,
                    ) {
                        lemma_cell_index_injective(self.width as int, a, b, x as int, y as int);
                    }
                    assert(j != i && j + 1 != i && j + 2 != i && j != i + 1 && j != i + 2 && j + 1
                        != i + 1 && j + 1 != i + 2 && j + 2 != i + 1 && j + 2 != i + 2);
                }
            }
        }
    }
}

/// Where the pixels of the largest and the dropped components go: red for a
/// pixel of some dropped component, else green for a pixel of the largest one,
/// else black.
pub open spec fn selection_color(
    largest: Seq<(u32, u32)>,
    dropped: Seq<Seq<(u32, u32)>>,
    p: (int, int),
) -> (u8, u8, u8) {
    if exists|j: int| 0 <= j < dropped.len() && holds(#[trigger] dropped[j], p) {
        (255, 0, 0)
    } else if holds(largest, p) {
        (0, 255, 0)
    } else {
        (0, 0, 0)
    }
}

/// Paints the pixels of `pts` in `color`, leaving the rest as they are.
fn paint_pixels(img: &mut RgbImage, pts: &Vec<(u32, u32)>, color: (u8, u8, u8))
    requires
        old(img).wf(),
        forall|k: int|
            0 <= k < pts@.len() ==> old(img)@.in_bounds(
                pos(#[trigger] pts@[k]).0,
                pos(pts@[k]).1,
            ),
    ensures
        final(img).wf(),
        final(img)@.width == old(img)@.width,
        final(img)@.height == old(img)@.height,
        forall|a: int, b: int|
            final(img)@.in_bounds(a, b) ==> #[trigger] final(img)@.at(a, b) == if holds(
                pts@,
                (a, b),
            ) {
                color
            } else {
                old(img)@.at(a, b)
            },
{
    let ghost start = img@;
    let mut i: usize = 0;
    while i < pts.len()
        invariant
            i <= pts@.len(),
            img.wf(),
            img@.width == start.width,
            img@.height == start.height,
            forall|k: int|
                0 <= k < pts@.len() ==> start.in_bounds(pos(#[trigger] pts@[k]).0, pos(pts@[k]).1),
            forall|a: int, b: int|
                img@.in_bounds(a, b) ==> #[trigger] img@.at(a, b) == if holds(
                    pts@.subrange(0, i as int),
                    (a, b),
                ) {
                    color
                } else {
                    start.at(a, b)
                },
        decreases pts@.len() - i,
    {
        let (x, y) = pts[i];
        proof {
            assert(start.in_bounds(pos(pts@[i as int]).0, pos(pts@[i as int]).1));
        }
        let ghost before = img@;
        img.put_pixel(x, y, color);
        proof {
            let pre = pts@.subrange(0, i as int);
            let post = pts@.subrange(0, i + 1);
            assert forall|a: int, b: int| img@.in_bounds(a, b) implies #[trigger] img@.at(a, b)
                == if holds(post, (a, b)) {
                color
            } else {
                start.at(a, b)
            } by {
                assert(before.in_bounds(a, b));
                if holds(pre, (a, b)) {
                    let k = choose|k: int| 0 <= k < pre.len() && #[trigger] pos(pre[k]) == (a, b);
                    assert(pos(post[k]) == (a, b));
                }
                if holds(post, (a, b)) && !(a == x && b == y) {
                    let k = choose|k: int| 0 <= k < post.len() && #[trigger] pos(post[k]) == (a, b);
                    assert(k < i);
                    assert(pos(pre[k]) == (a, b));
                }
                if a == x && b == y {
                    assert(pos(post[i as int]) == (a, b));
                }
            }
        }
        i = i + 1;
    }
    proof {
        assert(pts@.subrange(0, i as int) =~= pts@);
    }
}

/// A picture of the component selection on a black image of the edge map's size:
/// the largest component in green, the dropped ones in red.
pub fn visualize_dropped_components(
    edges: &GrayImage,
    largest: &Vec<(u32, u32)>,
    dropped: &Vec<Vec<(u32, u32)>>,
) -> (picture: RgbImage)
    requires
        3 * (edges@.width * edges@.height) <= usize::MAX,
        edges@.width <= i32::MAX,
        edges@.height <= i32::MAX,
        forall|k: int|
            0 <= k < largest@.len() ==> edges@.in_bounds(
                pos(#[trigger] largest@[k]).0,
                pos(largest@[k]).1,
            ),
        forall|j: int, k: int|
            0 <= j < dropped@.len() && 0 <= k < dropped@[j]@.len() ==> edges@.in_bounds(
                pos(#[trigger] dropped@[j]@[k]).0,
                pos(dropped@[j]@[k]).1,
            ),
    ensures
        picture.wf(),
        picture@.width == edges@.width,
        picture@.height == edges@.height,
        forall|a: int, b: int|
            picture@.in_bounds(a, b) ==> #[trigger] picture@.at(a, b) == selection_color(
                largest@,
                dropped@.map_values(|c: Vec<(u32, u32)>| c@),
                (a, b),
            ),
{
    let (width, height) = edges.dimensions();
    let mut output = RgbImage::black(width, height);
    paint_pixels(&mut output, largest, (0, 255, 0));
    let ghost comps = dropped@.map_values(|c: Vec<(u32, u32)>| c@);
    proof {
        assert(comps.subrange(0, 0) =~= Seq::<Seq<(u32, u32)>>::empty());
    }
    let mut j: usize = 0;
    while j < dropped.len()
        invariant
            j <= dropped@.len(),
            output.wf(),
            output@.width == width,
            output@.height == height,
            width == edges@.width,
            height == edges@.height,
            comps == dropped@.map_values(|c: Vec<(u32, u32)>| c@),
            forall|jj: int, k: int|
                0 <= jj < dropped@.len() && 0 <= k < dropped@[jj]@.len() ==> edges@.in_bounds(
                    pos(#[trigger] dropped@[jj]@[k]).0,
                    pos(dropped@[jj]@[k]).1,
                ),
            forall|a: int, b: int|
                output@.in_bounds(a, b) ==> #[trigger] output@.at(a, b) == selection_color(
                    largest@,
                    comps.subrange(0, j as int),
                    (a, b),
                ),
        decreases dropped@.len() - j,
    {
        let ghost before = output@;
        proof {
            assert forall|k: int| 0 <= k < dropped@[j as int]@.len() implies before.in_bounds(
                pos(#[trigger] dropped@[j as int]@[k]).0,
                pos(dropped@[j as int]@[k]).1,
            ) by {
                assert(edges@.in_bounds(pos(dropped@[j as int]@[k]).0, pos(dropped@[j as int]@[k]).1));
            }
        }
        paint_pixels(&mut output, &dropped[j], (255, 0, 0));
        proof {
            let pre = comps.subrange(0, j as int);
            let post = comps.subrange(0, j + 1);
            assert(post[j as int] == dropped@[j as int]@);
            assert forall|a: int, b: int| output@.in_bounds(a, b) implies #[trigger] output@.at(a, b)
                == selection_color(largest@, post, (a, b)) by {
                assert(before.in_bounds(a, b));
                let p = (a, b);
                if exists|jj: int| 0 <= jj < pre.len() && holds(#[trigger] pre[jj], p) {
                    let jj = choose|jj: int| 0 <= jj < pre.len() && holds(#[trigger] pre[jj], p);
                    assert(post[jj] == pre[jj]);
                }
                if exists|jj: int| 0 <= jj < post.len() && holds(#[trigger] post[jj], p) {
                    let jj = choose|jj: int| 0 <= jj < post.len() && holds(#[trigger] post[jj], p);
                    if jj < j {
                        assert(pre[jj] == post[jj]);
                    }
                }
            }
        }
        j = j + 1;
    }
    proof {
        assert(comps.subrange(0, j as int) =~= comps);
        assert forall|a: int, b: int| output@.in_bounds(a, b) implies #[trigger] output@.at(a, b)
            == selection_color(largest@, comps, (a, b)) by {}
    }
    output
}

/// What `imageproc::drawing::draw_filled_circle_mut` makes of a picture for a
/// centre, a radius and a colour.
pub uninterp spec fn with_filled_circle(p: Picture, center: (i32, i32), radius: i32, color: (u8, u8, u8)) -> Picture;

/// Centres for which a circle of the radius can be drawn: the extreme coordinates
/// `c - radius` and `c + radius` fit an `i32`, and `c + radius` stays below the
/// point from which converting it to `f32` rounds up to 2^31, where the line
/// drawing's `i32` counter would overflow.
pub open spec fn drawable(center: (i32, i32), radius: i32) -> bool {
    &&& i32::MIN + radius <= center.0
    &&& center.0 + radius <= 0x7fff_ffbf
    &&& i32::MIN + radius <= center.1
    &&& center.1 + radius <= 0x7fff_ffbf
}

/// Calls `imageproc::drawing::draw_filled_circle_mut`, which sets, in the colour,
/// the pixels of the filled circle that lie inside the image. The contract names
/// the resulting picture, and states that the size stays and that every pixel is
/// either as before or the colour; which pixels the circle covers is left to the
/// name.
#[verifier::external_body]
fn draw_filled_circle(img: &mut RgbImage, center: (i32, i32), radius: i32, color: (u8, u8, u8))
    requires
        old(img).wf(),
        0 <= radius <= 1024,
        drawable(center, radius),
    ensures
        final(img).wf(),
        final(img)@.width == old(img)@.width,
        final(img)@.height == old(img)@.height,
        final(img)@ == with_filled_circle(old(img)@, center, radius, color),
        forall|x: int, y: int|
            final(img)@.in_bounds(x, y) ==> #[trigger] final(img)@.at(x, y) == old(img)@.at(x, y)
                || final(img)@.at(x, y) == color,
{
    let (w, h) = img.dimensions();
    let mut canvas = image::RgbImage::from_raw(w, h, img.as_raw().clone()).unwrap();
    let pixel = image::Rgb([color.0, color.1, color.2]);
    imageproc::drawing::draw_filled_circle_mut(&mut canvas, center, radius, pixel);
    *img = RgbImage::from_raw(w, h, canvas.into_raw()).unwrap();
}

/// The picture after drawing, in turn, a circle of radius 1 in `color` around each
/// of the points.
pub open spec fn circles_drawn(p: Picture, points: Seq<(i32, i32)>, color: (u8, u8, u8)) -> Picture
    decreases points.len(),
{
    if points.len() == 0 {
        p
    } else {
        with_filled_circle(circles_drawn(p, points.drop_last(), color), points.last(), 1, color)
    }
}

/// The picture after drawing the strokes in turn, stroke `i` in the palette's
/// colour `i`.
pub open spec fn strokes_drawn(p: Picture, strokes: Seq<Seq<(i32, i32)>>) -> Picture
    decreases strokes.len(),
{
    if strokes.len() == 0 {
        p
    } else {
        circles_drawn(
            strokes_drawn(p, strokes.drop_last()),
            strokes.last(),
            palette_color(strokes.len() - 1),
        )
    }
}

/// Some stroke before `n` is drawn in this colour.
pub open spec fn stroke_colour(c: (u8, u8, u8), n: int) -> bool {
    exists|j: int| 0 <= j < n && #[trigger] palette_color(j) == c
}

/// A picture of the strokes on a black image of the edge map's size: a small
/// filled circle around every point, each stroke in its palette colour.
pub fn visualize_components(edges: &GrayImage, components: &Vec<Component>) -> (picture: RgbImage)
    requires
        3 * (edges@.width * edges@.height) <= usize::MAX,
        edges@.width <= i32::MAX,
        edges@.height <= i32::MAX,
        forall|i: int, k: int|
            0 <= i < components@.len() && 0 <= k < components@[i].points@.len() ==> drawable(
                #[trigger] components@[i].points@[k],
                1,
            ),
    ensures
        picture.wf(),
        picture@.width == edges@.width,
        picture@.height == edges@.height,
        picture@ == strokes_drawn(
            black_picture(edges@.width, edges@.height),
            paths(components@),
        ),
        forall|x: int, y: int|
            picture@.in_bounds(x, y) ==> #[trigger] picture@.at(x, y) == (0u8, 0u8, 0u8)
                || stroke_colour(picture@.at(x, y), components@.len() as int),
{
    let (width, height) = edges.dimensions();
    let mut output = RgbImage::black(width, height);
    let ghost start = output@;
    let ghost strokes = paths(components@);
    let mut i: usize = 0;
    proof {
        assert(strokes.subrange(0, 0) =~= Seq::<Seq<(i32, i32)>>::empty());
    }
    while i < components.len()
        invariant
            i <= components@.len(),
            output.wf(),
            output@.width == edges@.width,
            output@.height == edges@.height,
            strokes == paths(components@),
            start == black_picture(edges@.width, edges@.height),
            forall|ii: int, k: int|
                0 <= ii < components@.len() && 0 <= k < components@[ii].points@.len() ==> drawable(
                    #[trigger] components@[ii].points@[k],
                    1,
                ),
            output@ == strokes_drawn(start, strokes.subrange(0, i as int)),
            forall|x: int, y: int|
                output@.in_bounds(x, y) ==> #[trigger] output@.at(x, y) == (0u8, 0u8, 0u8)
                    || stroke_colour(output@.at(x, y), i as int),
        decreases components@.len() - i,
    {
        let color = component_color(i);
        let points = &components[i].points;
        let ghost before = output@;
        let ghost pts = points@;
        proof {
            assert(strokes[i as int] == pts);
            assert(pts.subrange(0, 0) =~= Seq::<(i32, i32)>::empty());
        }
        let mut k: usize = 0;
        while k < points.len()
            invariant
                k <= pts.len(),
                pts == points@,
                output.wf(),
                output@.width == edges@.width,
                output@.height == edges@.height,
                color == palette_color(i as int),
                forall|kk: int| 0 <= kk < pts.len() ==> drawable(#[trigger] pts[kk], 1),
                output@ == circles_drawn(before, pts.subrange(0, k as int), color),
                forall|x: int, y: int|
                    output@.in_bounds(x, y) ==> #[trigger] output@.at(x, y) == (0u8, 0u8, 0u8)
                        || stroke_colour(output@.at(x, y), i + 1),
            decreases pts.len() - k,
        {
            let ghost drawn = output@;
            draw_filled_circle(&mut output, points[k], 1, color);
            proof {
                assert(pts.subrange(0, k + 1).drop_last() =~= pts.subrange(0, k as int));
                assert forall|x: int, y: int| output@.in_bounds(x, y) implies #[trigger] output@.at(x, y)
                    == (0u8, 0u8, 0u8) || stroke_colour(output@.at(x, y), i + 1) by {
                    assert(drawn.in_bounds(x, y));
                    if output@.at(x, y) == color {
                        assert(palette_color(i as int) == color);
                    } else if drawn.at(x, y) != (0u8, 0u8, 0u8) {
                        let j = choose|j: int| 0 <= j < i + 1 && #[trigger] palette_color(j) == drawn.at(x, y);
                        assert(palette_color(j) == output@.at(x, y));
                    }
                }
            }
            k = k + 1;
        }
        proof {
            assert(pts.subrange(0, k as int) =~= pts);
            assert(strokes.subrange(0, i + 1).drop_last() =~= strokes.subrange(0, i as int));
            assert(strokes.subrange(0, i + 1).last() == pts);
        }
        i = i + 1;
    }
    proof {
        assert(strokes.subrange(0, i as int) =~= strokes);
    }
    output
}

} // verus!
