//! An 8-bit grayscale raster stored row by row, and the neighbourhood
//! vocabulary that the contour algorithms share.

use vstd::prelude::*;

verus! {

/// The abstract content of a raster: its size and the value of every pixel
/// inside it, keyed by `(x, y)`.
pub struct Raster {
    pub width: int,
    pub height: int,
    pub cells: Map<(int, int), u8>,
}

impl Raster {
    pub open spec fn in_bounds(self, x: int, y: int) -> bool {
        0 <= x < self.width && 0 <= y < self.height
    }

    pub open spec fn at(self, x: int, y: int) -> u8 {
        self.cells[(x, y)]
    }

    /// A pixel is foreground when it lies inside the raster and is not black.
    pub open spec fn is_fg(self, x: int, y: int) -> bool {
        self.in_bounds(x, y) && self.at(x, y) > 0
    }

    pub open spec fn set(self, x: int, y: int, v: u8) -> Raster {
        Raster { width: self.width, height: self.height, cells: self.cells.insert((x, y), v) }
    }

    /// The size fits the coordinate types and every pixel inside, and only those, has a value.
    pub open spec fn valid(self) -> bool {
        &&& 0 <= self.width <= i32::MAX
        &&& 0 <= self.height <= i32::MAX
        &&& forall|p: (int, int)| #[trigger] self.cells.dom().contains(p) <==> self.in_bounds(p.0, p.1)
    }

    pub open spec fn same_shape(self, other: Raster) -> bool {
        self.width == other.width && self.height == other.height
    }

    /// The number of non-black pixels among rows `0..y-1` and the first `x` pixels of row `y-1`.
    pub open spec fn fg_count_upto(self, x: int, y: int) -> nat
        decreases y, x,
    {
        if y <= 0 {
            0
        } else if x <= 0 {
            self.fg_count_upto(self.width, y - 1)
        } else {
            self.fg_count_upto(x - 1, y) + if self.at(x - 1, y - 1) > 0 { 1nat } else { 0nat }
        }
    }

    /// The number of non-black pixels of the whole raster.
    pub open spec fn fg_count(self) -> nat {
        self.fg_count_upto(self.width, self.height)
    }
}

/// Two valid rasters of one shape that agree on every pixel are equal.
pub proof fn lemma_raster_ext(a: Raster, b: Raster)
    requires
        a.valid(),
        b.valid(),
        a.same_shape(b),
        forall|x: int, y: int| a.in_bounds(x, y) ==> #[trigger] a.at(x, y) == b.at(x, y),
    ensures
        a == b,
{
    assert forall|p: (int, int)| a.cells.dom().contains(p) implies a.cells[p] == b.cells[p] by {
        assert(a.at(p.0, p.1) == b.at(p.0, p.1));
    }
    assert(a.cells =~= b.cells);
}

/// Row-major position of `(x, y)` in a buffer `width` pixels wide.
pub open spec fn cell_index(width: int, x: int, y: int) -> int {
    y * width + x
}

pub proof fn lemma_cell_index_bounds(width: int, height: int, x: int, y: int)
    requires
        0 <= x < width,
        0 <= y < height,
    ensures
        0 <= cell_index(width, x, y) < width * height,
{
    assert(0 <= y * width) by (nonlinear_arith)
        requires
            0 <= y,
            0 <= width,
    ;
    assert(y * width + x < width * height) by (nonlinear_arith)
        requires
            0 <= x < width,
            0 <= y < height,
    ;
}

pub proof fn lemma_cell_index_injective(width: int, x1: int, y1: int, x2: int, y2: int)
    requires
        0 <= x1 < width,
        0 <= x2 < width,
        0 <= y1,
        0 <= y2,
        cell_index(width, x1, y1) == cell_index(width, x2, y2),
    ensures
        x1 == x2,
        y1 == y2,
{
    if y1 < y2 {
        assert(y1 * width + width <= y2 * width) by (nonlinear_arith)
            requires
                y1 < y2,
                0 <= width,
        ;
    } else if y2 < y1 {
        assert(y2 * width + width <= y1 * width) by (nonlinear_arith)
            requires
                y2 < y1,
                0 <= width,
        ;
    }
}

/// A grayscale image: `height` rows of `width` bytes each, stored row by row.
#[derive(Debug)]
pub struct GrayImage {
    width: u32,
    height: u32,
    pixels: Vec<u8>,
}

impl View for GrayImage {
    type V = Raster;

    closed spec fn view(&self) -> Raster {
        Raster {
            width: self.width as int,
            height: self.height as int,
            cells: Map::new(
                |p: (int, int)| 0 <= p.0 < self.width && 0 <= p.1 < self.height,
                |p: (int, int)| self.pixels@[cell_index(self.width as int, p.0, p.1)],
            ),
        }
    }
}

impl GrayImage {
    /// The buffer holds exactly one byte per pixel and both sides fit an `i32`.
    pub closed spec fn wf(&self) -> bool {
        &&& self.pixels@.len() == self.width * self.height
        &&& self.width <= i32::MAX
        &&& self.height <= i32::MAX
    }

    pub proof fn lemma_valid(&self)
        requires
            self.wf(),
        ensures
            self@.valid(),
    {
    }

    /// The row-major buffer of pixel values.
    pub closed spec fn raw(&self) -> Seq<u8> {
        self.pixels@
    }

    /// A black image of the given size.
    pub fn new(width: u32, height: u32) -> (img: GrayImage)
        requires
            width <= i32::MAX,
            height <= i32::MAX,
            width * height <= usize::MAX,
        ensures
            img.wf(),
            img@.width == width,
            img@.height == height,
            forall|x: int, y: int| img@.in_bounds(x, y) ==> #[trigger] img@.at(x, y) == 0,
    {
        let n: usize = (width as usize) * (height as usize);
        let mut pixels: Vec<u8> = Vec::new();
        let mut i: usize = 0;
        while i < n
            invariant
                i <= n,
                pixels@.len() == i,
                forall|j: int| 0 <= j < i ==> pixels@[j] == 0,
            decreases n - i,
        {
            pixels.push(0u8);
            i = i + 1;
        }
        let img = GrayImage { width, height, pixels };
        proof {
            assert forall|x: int, y: int| img@.in_bounds(x, y) implies #[trigger] img@.at(x, y)
                == 0 by {
                lemma_cell_index_bounds(width as int, height as int, x, y);
            }
        }
        img
    }

    /// Wraps a row-major buffer; `None` unless it holds exactly `width * height` bytes.
    pub fn from_raw(width: u32, height: u32, pixels: Vec<u8>) -> (img: Option<GrayImage>)
        ensures
            img.is_some() <==> (width <= i32::MAX && height <= i32::MAX && pixels@.len()
                == width * height),
            img matches Some(i) ==> i.wf() && i@.width == width && i@.height == height
                && i.raw() == pixels@,
    {
        if width > 0x7fff_ffff || height > 0x7fff_ffff {
            return None;
        }
        let w = width as usize;
        let h = height as usize;
        let n = pixels.len();
        if h != 0 && w > usize::MAX / h {
            proof {
                assert(w * h > usize::MAX) by (nonlinear_arith)
                    requires
                        h > 0,
                        w > usize::MAX / h,
                ;
            }
            return None;
        }
        proof {
            if h != 0 {
                assert(w * h <= usize::MAX) by (nonlinear_arith)
                    requires
                        h > 0,
                        w <= usize::MAX / h,
                ;
            }
        }
        if n != w * h {
            return None;
        }
        Some(GrayImage { width, height, pixels })
    }

    /// The row-major buffer of pixel values.
    pub fn as_raw(&self) -> (raw: &Vec<u8>)
        ensures
            raw@ == self.raw(),
    {
        &self.pixels
    }

    pub fn width(&self) -> (w: u32)
        ensures
            w == self@.width,
    {
        self.width
    }

    pub fn height(&self) -> (h: u32)
        ensures
            h == self@.height,
    {
        self.height
    }

    /// `(width, height)`.
    pub fn dimensions(&self) -> (d: (u32, u32))
        ensures
            d.0 == self@.width,
            d.1 == self@.height,
    {
        (self.width, self.height)
    }

    pub fn get_pixel(&self, x: u32, y: u32) -> (v: u8)
        requires
            self.wf(),
            x < self@.width,
            y < self@.height,
        ensures
            v == self@.at(x as int, y as int),
    {
        let yy = y as usize;
        let ww = self.width as usize;
        let xx = x as usize;
        proof {
            lemma_cell_index_bounds(ww as int, self.height as int, xx as int, yy as int);
            assert(self.pixels@.len() == self.width * self.height);
            assert(xx < ww);
            assert(yy < self.height);
            assert(yy * ww + xx < ww * self.height);
        }
        let len = self.pixels.len();
        proof {
            assert(yy * ww + xx < len);
        }
        let idx: usize = yy * ww + xx;
        self.pixels[idx]
    }

    pub fn put_pixel(&mut self, x: u32, y: u32, v: u8)
        requires
            old(self).wf(),
            x < old(self)@.width,
            y < old(self)@.height,
        ensures
            final(self).wf(),
            final(self)@ == old(self)@.set(x as int, y as int, v),
    {
        let yy = y as usize;
        let ww = self.width as usize;
        let xx = x as usize;
        proof {
            lemma_cell_index_bounds(ww as int, self.height as int, xx as int, yy as int);
        }
        let ghost before = self@;
        let len = self.pixels.len();
        proof {
            assert(yy * ww + xx < len);
        }
        let idx: usize = yy * ww + xx;
        self.pixels.set(idx, v);
        proof {
            let after = self@;
            let expect = before.set(x as int, y as int, v);
            assert forall|p: (int, int)| after.cells.dom().contains(p) implies after.cells[p]
                == expect.cells[p] by {
                lemma_cell_index_bounds(self.width as int, self.height as int, p.0, p.1);
                if p != (x as int, y as int) {
                    if cell_index(self.width as int, p.0, p.1) == idx as int {
                        lemma_cell_index_injective(
                            self.width as int,
                            p.0,
                            p.1,
                            x as int,
                            y as int,
                        );
                    }
                }
            }
            assert(after.cells =~= expect.cells);
        }
    }

    /// A copy with the same size and pixels.
    pub fn duplicate(&self) -> (copy: GrayImage)
        ensures
            copy.wf() == self.wf(),
            copy@ == self@,
            copy.raw() == self.raw(),
    {
        let mut pixels: Vec<u8> = Vec::new();
        let mut i: usize = 0;
        while i < self.pixels.len()
            invariant
                i <= self.pixels@.len(),
                pixels@ == self.pixels@.subrange(0, i as int),
            decreases self.pixels@.len() - i,
        {
            pixels.push(self.pixels[i]);
            i = i + 1;
        }
        assert(pixels@ =~= self.pixels@);
        GrayImage { width: self.width, height: self.height, pixels }
    }
}

/// The eight neighbour offsets, row by row from the top-left one.
pub open spec fn neighbor_offset(k: int) -> (int, int) {
    if k == 0 {
        (-1, -1)
    } else if k == 1 {
        (0, -1)
    } else if k == 2 {
        (1, -1)
    } else if k == 3 {
        (-1, 0)
    } else if k == 4 {
        (1, 0)
    } else if k == 5 {
        (-1, 1)
    } else if k == 6 {
        (0, 1)
    } else {
        (1, 1)
    }
}

/// The `k`-th neighbour offset, for `k < 8`.
pub fn neighbor(k: usize) -> (d: (i32, i32))
    requires
        k < 8,
    ensures
        d.0 == neighbor_offset(k as int).0,
        d.1 == neighbor_offset(k as int).1,
{
    if k == 0 {
        (-1, -1)
    } else if k == 1 {
        (0, -1)
    } else if k == 2 {
        (1, -1)
    } else if k == 3 {
        (-1, 0)
    } else if k == 4 {
        (1, 0)
    } else if k == 5 {
        (-1, 1)
    } else if k == 6 {
        (0, 1)
    } else {
        (1, 1)
    }
}

/// Two distinct cells that touch by a side or a corner.
pub open spec fn adjacent(a: (int, int), b: (int, int)) -> bool {
    a != b && -1 <= a.0 - b.0 <= 1 && -1 <= a.1 - b.1 <= 1
}

pub proof fn lemma_neighbor_offsets_adjacent(k: int, p: (int, int))
    requires
        0 <= k < 8,
    ensures
        adjacent(p, (p.0 + neighbor_offset(k).0, p.1 + neighbor_offset(k).1)),
{
}

/// Every cell adjacent to `p` is reached by exactly one neighbour offset.
pub proof fn lemma_adjacent_has_offset(p: (int, int), q: (int, int))
    requires
        adjacent(p, q),
    ensures
        exists|k: int|
            0 <= k < 8 && q == (p.0 + #[trigger] neighbor_offset(k).0, p.1 + neighbor_offset(k).1),
{
    let dx = q.0 - p.0;
    let dy = q.1 - p.1;
    let k: int = if dy == -1 {
        dx + 1
    } else if dy == 0 {
        if dx == -1 {
            3
        } else {
            4
        }
    } else {
        dx + 6
    };
    assert(q == (p.0 + neighbor_offset(k).0, p.1 + neighbor_offset(k).1));
}

/// Whether `(x0, y0)` is among the pixels that `fg_count_upto(x, y)` looks at.
pub open spec fn counted_before(width: int, x0: int, y0: int, x: int, y: int) -> bool {
    0 <= x0 < width && 0 <= y0 && (y0 < y - 1 || (y0 == y - 1 && x0 < x))
}

/// Clearing pixels never adds to the count, and clearing a counted non-black pixel removes one.
pub proof fn lemma_fg_count_shrinks(r: Raster, s: Raster, x: int, y: int)
    requires
        r.same_shape(s),
        0 <= x <= r.width,
        0 <= y <= r.height,
        forall|a: int, b: int| r.in_bounds(a, b) && #[trigger] s.at(a, b) > 0 ==> r.at(a, b) > 0,
    ensures
        s.fg_count_upto(x, y) <= r.fg_count_upto(x, y),
        forall|x0: int, y0: int|
            counted_before(r.width, x0, y0, x, y) && r.at(x0, y0) > 0 && #[trigger] s.at(x0, y0)
                == 0 ==> s.fg_count_upto(x, y) < r.fg_count_upto(x, y),
    decreases y, x,
{
    if y <= 0 {
    } else if x <= 0 {
        lemma_fg_count_shrinks(r, s, r.width, y - 1);
        assert forall|x0: int, y0: int|
            counted_before(r.width, x0, y0, x, y) && r.at(x0, y0) > 0 && #[trigger] s.at(x0, y0)
                == 0 implies s.fg_count_upto(x, y) < r.fg_count_upto(x, y) by {
            assert(counted_before(r.width, x0, y0, r.width, y - 1));
        }
    } else {
        lemma_fg_count_shrinks(r, s, x - 1, y);
        assert(r.in_bounds(x - 1, y - 1));
        assert forall|x0: int, y0: int|
            counted_before(r.width, x0, y0, x, y) && r.at(x0, y0) > 0 && #[trigger] s.at(x0, y0)
                == 0 implies s.fg_count_upto(x, y) < r.fg_count_upto(x, y) by {
            if !(x0 == x - 1 && y0 == y - 1) {
                assert(counted_before(r.width, x0, y0, x - 1, y));
            }
        }
    }
}

/// A set of pixel positions of one image, kept as one flag per pixel.
pub struct PixelSet {
    width: u32,
    height: u32,
    flags: Vec<bool>,
}

impl View for PixelSet {
    type V = Set<(int, int)>;

    closed spec fn view(&self) -> Set<(int, int)> {
        Set::new(
            |p: (int, int)|
                0 <= p.0 < self.width && 0 <= p.1 < self.height && self.flags@[cell_index(
                    self.width as int,
                    p.0,
                    p.1,
                )],
        )
    }
}

impl PixelSet {
    pub closed spec fn wf(&self) -> bool {
        &&& self.flags@.len() == self.width * self.height
        &&& self.width <= i32::MAX
        &&& self.height <= i32::MAX
    }

    pub closed spec fn set_width(&self) -> int {
        self.width as int
    }

    pub closed spec fn set_height(&self) -> int {
        self.height as int
    }

    /// The set is sized for the image's pixels.
    pub open spec fn fits(&self, img: Raster) -> bool {
        self.wf() && self.set_width() == img.width && self.set_height() == img.height
    }

    /// Every member lies inside the image.
    pub proof fn lemma_members_in_bounds(&self)
        ensures
            forall|p: (int, int)|
                #[trigger] self@.contains(p) ==> 0 <= p.0 < self.set_width() && 0 <= p.1
                    < self.set_height(),
    {
    }

    /// An empty set for the pixels of `img`.
    pub fn for_image(img: &GrayImage) -> (set: PixelSet)
        requires
            img.wf(),
        ensures
            set.fits(img@),
            set@ == Set::<(int, int)>::empty(),
    {
        let (width, height) = img.dimensions();
        let n = img.as_raw().len();
        let mut flags: Vec<bool> = Vec::new();
        let mut i: usize = 0;
        while i < n
            invariant
                i <= n,
                flags@.len() == i,
                forall|j: int| 0 <= j < i ==> !flags@[j],
            decreases n - i,
        {
            flags.push(false);
            i = i + 1;
        }
        let set = PixelSet { width, height, flags };
        assert(set@ =~= Set::<(int, int)>::empty()) by {
            assert forall|p: (int, int)| !set@.contains(p) by {
                if 0 <= p.0 < width && 0 <= p.1 < height {
                    lemma_cell_index_bounds(width as int, height as int, p.0, p.1);
                }
            }
        }
        set
    }

    pub fn width(&self) -> (w: u32)
        ensures
            w == self.set_width(),
    {
        self.width
    }

    pub fn height(&self) -> (h: u32)
        ensures
            h == self.set_height(),
    {
        self.height
    }

    pub fn contains(&self, x: u32, y: u32) -> (b: bool)
        requires
            self.wf(),
            x < self.set_width(),
            y < self.set_height(),
        ensures
            b == self@.contains((x as int, y as int)),
    {
        let yy = y as usize;
        let ww = self.width as usize;
        let xx = x as usize;
        proof {
            lemma_cell_index_bounds(ww as int, self.height as int, xx as int, yy as int);
        }
        let len = self.flags.len();
        proof {
            assert(yy * ww + xx < len);
        }
        self.flags[yy * ww + xx]
    }

    pub fn insert(&mut self, x: u32, y: u32)
        requires
            old(self).wf(),
            x < old(self).set_width(),
            y < old(self).set_height(),
        ensures
            final(self).wf(),
            final(self).set_width() == old(self).set_width(),
            final(self).set_height() == old(self).set_height(),
            final(self)@ == old(self)@.insert((x as int, y as int)),
    {
        let yy = y as usize;
        let ww = self.width as usize;
        let xx = x as usize;
        proof {
            lemma_cell_index_bounds(ww as int, self.height as int, xx as int, yy as int);
        }
        let ghost before = self@;
        let len = self.flags.len();
        proof {
            assert(yy * ww + xx < len);
        }
        let idx: usize = yy * ww + xx;
        self.flags.set(idx, true);
        proof {
            assert forall|p: (int, int)| self@.contains(p) == before.insert(
                (x as int, y as int),
            ).contains(p) by {
                if 0 <= p.0 < self.width && 0 <= p.1 < self.height {
                    lemma_cell_index_bounds(self.width as int, self.height as int, p.0, p.1);
                    if p != (x as int, y as int) && cell_index(self.width as int, p.0, p.1)
                        == idx as int {
                        lemma_cell_index_injective(self.width as int, p.0, p.1, x as int, y as int);
                    }
                }
            }
            assert(self@ =~= before.insert((x as int, y as int)));
        }
    }
}

/// `p` comes before `q` in row-major scan order.
pub open spec fn scan_lt(p: (int, int), q: (int, int)) -> bool {
    p.1 < q.1 || (p.1 == q.1 && p.0 < q.0)
}

/// A pixel position as a pair of mathematical integers.
pub open spec fn pos(p: (u32, u32)) -> (int, int) {
    (p.0 as int, p.1 as int)
}

/// Distinct cells of a `w` by `h` grid are at most `w * h` many.
pub proof fn lemma_distinct_cells_bounded(s: Seq<(int, int)>, w: int, h: int)
    requires
        s.no_duplicates(),
        0 <= w,
        0 <= h,
        forall|k: int| 0 <= k < s.len() ==> 0 <= (#[trigger] s[k]).0 < w && 0 <= s[k].1 < h,
    ensures
        s.len() <= w * h,
{
    let t = s.map_values(|p: (int, int)| cell_index(w, p.0, p.1));
    assert forall|i: int, j: int| 0 <= i < t.len() && 0 <= j < t.len() && i != j implies t[i]
        != t[j] by {
        if t[i] == t[j] {
            lemma_cell_index_injective(w, s[i].0, s[i].1, s[j].0, s[j].1);
        }
    }
    assert(t.no_duplicates());
    let range = vstd::set_lib::set_int_range(0, w * h);
    assert forall|v: int| t.to_set().contains(v) implies range.contains(v) by {
        let k = choose|k: int| 0 <= k < t.len() && t[k] == v;
        lemma_cell_index_bounds(w, h, s[k].0, s[k].1);
    }
    vstd::set_lib::lemma_int_range(0, w * h);
    t.unique_seq_to_set();
    vstd::set_lib::lemma_len_subset(t.to_set(), range);
}

} // verus!
