//! Tracing every sufficiently large component of an edge map into a stroke, by a
//! depth-first walk from one of its ends.

use vstd::prelude::*;
use crate::components::{
    component_positions, flood_fill, grown_from_first, holds, lemma_scan_done, lemma_scan_next_row, positions,
    lemma_scan_step_new, lemma_scan_step_skip, lemma_scan_takes, scan_components, scan_invariant,
    scanned_as, scanned_components,
};
use crate::linking::{Component, paths};
use crate::raster::{
    GrayImage, PixelSet, Raster, adjacent, lemma_adjacent_has_offset, neighbor, neighbor_offset, pos,
    scan_lt,
};
use crate::walk::{ipts, lemma_walk_bounded, walkable};

verus! {

/// How many of the first `k` neighbour offsets of `(x, y)` lead to a pixel of the region.
pub open spec fn region_neighbors_upto(region: Seq<(u32, u32)>, x: int, y: int, k: int) -> nat
    decreases k,
{
    if k <= 0 {
        0
    } else {
        region_neighbors_upto(region, x, y, k - 1) + if holds(
            region,
            (x + neighbor_offset(k - 1).0, y + neighbor_offset(k - 1).1),
        ) {
            1nat
        } else {
            0nat
        }
    }
}

/// The number of the eight neighbours of `(x, y)` that belong to the region.
pub open spec fn region_neighbor_count(region: Seq<(u32, u32)>, x: int, y: int) -> nat {
    region_neighbors_upto(region, x, y, 8)
}

/// The position of the first pixel of the region from `k` on with exactly one
/// neighbour in the region, if any.
pub open spec fn first_region_end_from(region: Seq<(u32, u32)>, k: int) -> Option<int>
    decreases region.len() - k,
{
    if k >= region.len() || k < 0 {
        None
    } else if region_neighbor_count(region, region[k].0 as int, region[k].1 as int) == 1 {
        Some(k)
    } else {
        first_region_end_from(region, k + 1)
    }
}

/// Where a stroke is traced from: the region's first end, or its first pixel.
pub open spec fn trace_start(region: Seq<(u32, u32)>) -> (int, int) {
    match first_region_end_from(region, 0) {
        Some(k) => pos(region[k]),
        None => pos(region[0]),
    }
}

/// `path` visits distinct pixels of the non-empty region, starting at its trace
/// start, each pixel after the first next to one visited before it.
pub open spec fn visits(region: Seq<(u32, u32)>, path: Seq<(int, int)>) -> bool {
    &&& path.len() > 0
    &&& path[0] == trace_start(region)
    &&& walkable(region, path)
    &&& forall|k: int|
        1 <= k < path.len() ==> exists|j: int| 0 <= j < k && adjacent(path[j], #[trigger] path[k])
}

/// `path` visits every pixel of the non-empty region exactly once, starting at its
/// trace start, each pixel after the first next to one visited before it.
pub open spec fn traces(region: Seq<(u32, u32)>, path: Seq<(int, int)>) -> bool {
    &&& visits(region, path)
    &&& forall|k: int| 0 <= k < region.len() ==> path.contains(pos(#[trigger] region[k]))
}

/// A set of cells that contains a pixel of the region and, with every pixel of the
/// region it contains, every region pixel touching it.
pub open spec fn closed_in(region: Seq<(u32, u32)>, s: Set<(int, int)>) -> bool {
    &&& exists|k: int| 0 <= k < region.len() && s.contains(pos(#[trigger] region[k]))
    &&& forall|p: (int, int), q: (int, int)|
        #[trigger] s.contains(p) && holds(region, p) && #[trigger] adjacent(p, q) && holds(region, q)
            ==> s.contains(q)
}

/// The region is 8-connected: every set closed in it holds all its pixels.
pub open spec fn region_connected(region: Seq<(u32, u32)>) -> bool {
    forall|s: Set<(int, int)>|
        #[trigger] closed_in(region, s) ==> forall|k: int|
            0 <= k < region.len() ==> s.contains(pos(#[trigger] region[k]))
}

/// The number of the eight neighbours of `(x, y)` that belong to the region.
fn count_neighbors(component: &PixelSet, x: u32, y: u32, ghost_region: Ghost<Seq<(u32, u32)>>) -> (n:
    usize)
    requires
        component.wf(),
        forall|p: (int, int)| #[trigger] component@.contains(p) <==> holds(ghost_region@, p),
        component.set_width() <= i32::MAX,
        component.set_height() <= i32::MAX,
    ensures
        n == region_neighbor_count(ghost_region@, x as int, y as int),
{
    proof {
        component.lemma_members_in_bounds();
    }
    let width = component.width();
    let height = component.height();
    let mut n: usize = 0;
    let mut k: usize = 0;
    while k < 8
        invariant
            k <= 8,
            component.wf(),
            width == component.set_width(),
            height == component.set_height(),
            forall|p: (int, int)| #[trigger] component@.contains(p) <==> holds(ghost_region@, p),
            forall|p: (int, int)|
                #[trigger] component@.contains(p) ==> 0 <= p.0 < component.set_width() && 0 <= p.1
                    < component.set_height(),
            n == region_neighbors_upto(ghost_region@, x as int, y as int, k as int),
            n <= k,
        decreases 8 - k,
    {
        let d = neighbor(k);
        let nx: i64 = x as i64 + d.0 as i64;
        let ny: i64 = y as i64 + d.1 as i64;
        let ghost q = (nx as int, ny as int);
        if nx >= 0 && ny >= 0 && nx < width as i64 && ny < height as i64 {
            if component.contains(nx as u32, ny as u32) {
                n = n + 1;
            }
        } else {
            proof {
                assert(!component@.contains(q));
            }
        }
        k = k + 1;
    }
    n
}

/// A set holding exactly the pixels of `region`.
pub fn set_of_pixels(image: &GrayImage, region: &Vec<(u32, u32)>) -> (set: PixelSet)
    requires
        image.wf(),
        forall|k: int| 0 <= k < region@.len() ==> image@.in_bounds(pos(#[trigger] region@[k]).0, pos(region@[k]).1),
    ensures
        set.fits(image@),
        forall|p: (int, int)| #[trigger] set@.contains(p) <==> holds(region@, p),
{
    let ghost r = image@;
    let mut set = PixelSet::for_image(image);
    let mut i: usize = 0;
    while i < region.len()
        invariant
            i <= region@.len(),
            set.fits(r),
            r == image@,
            forall|k: int| 0 <= k < region@.len() ==> r.in_bounds(pos(#[trigger] region@[k]).0, pos(region@[k]).1),
            forall|p: (int, int)| #[trigger] set@.contains(p) <==> holds(region@.subrange(0, i as int), p),
        decreases region@.len() - i,
    {
        let (x, y) = region[i];
        proof {
            assert(r.in_bounds(pos(region@[i as int]).0, pos(region@[i as int]).1));
        }
        set.insert(x, y);
        proof {
            let pre = region@.subrange(0, i as int);
            let post = region@.subrange(0, i + 1);
            assert forall|p: (int, int)| #[trigger] set@.contains(p) <==> holds(post, p) by {
                if holds(pre, p) {
                    let k = choose|k: int| 0 <= k < pre.len() && #[trigger] pos(pre[k]) == p;
                    assert(pos(post[k]) == p);
                }
                if holds(post, p) {
                    let k = choose|k: int| 0 <= k < post.len() && #[trigger] pos(post[k]) == p;
                    if k < i {
                        assert(pos(pre[k]) == p);
                    }
                }
                if p == pos(region@[i as int]) {
                    assert(pos(post[i as int]) == p);
                }
            }
        }
        i = i + 1;
    }
    proof {
        assert(region@.subrange(0, i as int) =~= region@);
    }
    set
}

fn first_region_end(set: &PixelSet, region: &Vec<(u32, u32)>) -> (idx: Option<usize>)
    requires
        set.wf(),
        forall|p: (int, int)| #[trigger] set@.contains(p) <==> holds(region@, p),
        set.set_width() <= i32::MAX,
        set.set_height() <= i32::MAX,
    ensures
        match idx {
            Some(k) => first_region_end_from(region@, 0) == Some(k as int) && k < region@.len(),
            None => first_region_end_from(region@, 0) is None,
        },
{
    let mut k: usize = 0;
    while k < region.len()
        invariant
            k <= region@.len(),
            set.wf(),
            forall|p: (int, int)| #[trigger] set@.contains(p) <==> holds(region@, p),
            set.set_width() <= i32::MAX,
            set.set_height() <= i32::MAX,
            first_region_end_from(region@, 0) == first_region_end_from(region@, k as int),
        decreases region@.len() - k,
    {
        let (x, y) = region[k];
        if count_neighbors(set, x, y, Ghost(region@)) == 1 {
            return Some(k);
        }
        k = k + 1;
    }
    None
}

/// The neighbours of `p` reached by the first `k` offsets, in offset order, that
/// belong to the region and are not in `visited`: the ones a visit pushes.
pub open spec fn unvisited_neighbors(region: Seq<(u32, u32)>, p: (int, int), visited: Set<(int, int)>, k: int) -> Seq<
    (int, int),
>
    decreases k,
{
    if k <= 0 {
        seq![]
    } else {
        let q = (p.0 + neighbor_offset(k - 1).0, p.1 + neighbor_offset(k - 1).1);
        unvisited_neighbors(region, p, visited, k - 1) + if holds(region, q) && !visited.contains(q) {
            seq![q]
        } else {
            seq![]
        }
    }
}

/// Depth-first search of the region with an explicit stack, for at most `fuel`
/// steps: the pixels in the order they are visited. Each step pops the top of the
/// stack; a pixel not visited yet is visited, and its unvisited neighbours are
/// pushed in offset order.
pub open spec fn dfs_order(region: Seq<(u32, u32)>, stack: Seq<(int, int)>, visited: Set<(int, int)>, fuel: nat) -> Seq<
    (int, int),
>
    decreases fuel,
{
    if fuel == 0 || stack.len() == 0 {
        seq![]
    } else {
        let p = stack.last();
        let rest = stack.drop_last();
        if visited.contains(p) {
            dfs_order(region, rest, visited, (fuel - 1) as nat)
        } else {
            let seen = visited.insert(p);
            seq![p] + dfs_order(
                region,
                rest + unvisited_neighbors(region, p, seen, 8),
                seen,
                (fuel - 1) as nat,
            )
        }
    }
}

/// The stroke traced through a region: the depth-first order from its trace start.
pub open spec fn dfs_stroke(region: Seq<(u32, u32)>) -> Seq<(int, int)> {
    dfs_order(region, seq![trace_start(region)], Set::empty(), (1 + 8 * region.len()) as nat)
}

proof fn lemma_unvisited_len(region: Seq<(u32, u32)>, p: (int, int), visited: Set<(int, int)>, k: int)
    requires
        0 <= k,
    ensures
        unvisited_neighbors(region, p, visited, k).len() <= k,
    decreases k,
{
    if k > 0 {
        lemma_unvisited_len(region, p, visited, k - 1);
    }
}

/// Every region pixel that touches a path pixel is on the path.
pub open spec fn path_closed(region: Seq<(u32, u32)>, path: Seq<(int, int)>) -> bool {
    forall|j: int, q: (int, int)|
        0 <= j < path.len() && #[trigger] adjacent(path[j], q) && holds(region, q) ==> path.contains(q)
}

proof fn lemma_reaches_first(r: Raster, region: Seq<(u32, u32)>, s: Set<(int, int)>, m: int)
    requires
        grown_from_first(r, region),
        closed_in(region, s),
        0 <= m < region.len(),
        s.contains(pos(region[m])),
    ensures
        s.contains(pos(region[0])),
    decreases m,
{
    if m > 0 {
        let j = choose|j: int| 0 <= j < m && adjacent(pos(region[j]), pos(#[trigger] region[m]));
        assert(holds(region, pos(region[m])));
        assert(holds(region, pos(region[j])));
        assert(adjacent(pos(region[m]), pos(region[j])));
        lemma_reaches_first(r, region, s, j);
    }
}

proof fn lemma_reaches_all(r: Raster, region: Seq<(u32, u32)>, s: Set<(int, int)>, m: int)
    requires
        grown_from_first(r, region),
        closed_in(region, s),
        s.contains(pos(region[0])),
        0 <= m < region.len(),
    ensures
        forall|k: int| 0 <= k <= m ==> s.contains(pos(#[trigger] region[k])),
    decreases m,
{
    if m > 0 {
        lemma_reaches_all(r, region, s, m - 1);
        let j = choose|j: int| 0 <= j < m && adjacent(pos(region[j]), pos(#[trigger] region[m]));
        assert(s.contains(pos(region[j])));
        assert(holds(region, pos(region[j])));
        assert(holds(region, pos(region[m])));
    }
}

/// A run grown from its first pixel is connected.
pub proof fn lemma_grown_connected(r: Raster, region: Seq<(u32, u32)>)
    requires
        grown_from_first(r, region),
    ensures
        region_connected(region),
{
    assert forall|s: Set<(int, int)>| #[trigger] closed_in(region, s) implies forall|k: int|
        0 <= k < region.len() ==> s.contains(pos(#[trigger] region[k])) by {
        let m = choose|m: int| 0 <= m < region.len() && s.contains(pos(#[trigger] region[m]));
        lemma_reaches_first(r, region, s, m);
        lemma_reaches_all(r, region, s, region.len() - 1);
    }
}

/// A closed path through a connected region that reaches one of its pixels covers it.
pub proof fn lemma_closed_path_covers(region: Seq<(u32, u32)>, path: Seq<(int, int)>, m: int)
    requires
        region_connected(region),
        path_closed(region, path),
        walkable(region, path),
        0 <= m < region.len(),
        path.contains(pos(region[m])),
    ensures
        forall|k: int| 0 <= k < region.len() ==> path.contains(pos(#[trigger] region[k])),
{
    let s = path.to_set();
    assert forall|p: (int, int), q: (int, int)|
        #[trigger] s.contains(p) && holds(region, p) && #[trigger] adjacent(p, q) && holds(region, q)
            implies s.contains(q) by {
        let j = choose|j: int| 0 <= j < path.len() && path[j] == p;
        assert(adjacent(path[j], q));
    }
    assert(s.contains(pos(region[m])));
    assert(closed_in(region, s));
    assert forall|k: int| 0 <= k < region.len() implies path.contains(pos(#[trigger] region[k])) by {
        assert(s.contains(pos(region[k])));
    }
}

#[verifier::rlimit(60)]
/// Traces a connected region into a stroke: depth first from its first end (or its
/// first pixel), pushing the unvisited neighbours of each visited pixel in offset order.
pub fn trace_path(image: &GrayImage, pixels: &Vec<(u32, u32)>) -> (path: Vec<(i32, i32)>)
    requires
        image.wf(),
        forall|k: int|
            0 <= k < pixels@.len() ==> image@.in_bounds(
                pos(#[trigger] pixels@[k]).0,
                pos(pixels@[k]).1,
            ),
    ensures
        pixels@.len() == 0 ==> path@.len() == 0,
        pixels@.len() > 0 ==> ipts(path@) == dfs_stroke(pixels@) && visits(pixels@, ipts(path@)),
        pixels@.len() > 0 && region_connected(pixels@) ==> traces(pixels@, ipts(path@)),
        forall|k: int| 0 <= k < path@.len() ==> image@.in_bounds((#[trigger] path@[k]).0 as int, path@[k].1 as int),
{
    if pixels.len() == 0 {
        return Vec::new();
    }
    let ghost r = image@;
    let ghost region = pixels@;
    proof {
        image.lemma_valid();
    }
    let (width, height) = image.dimensions();
    let pixel_set = set_of_pixels(image, pixels);
    let start = match first_region_end(&pixel_set, pixels) {
        Some(k) => pixels[k],
        None => pixels[0],
    };
    proof {
        assert(pos(start) == trace_start(region));
        assert(holds(region, pos(start)));
    }

    let mut path: Vec<(i32, i32)> = Vec::new();
    let mut visited = PixelSet::for_image(image);
    let mut stack: Vec<(u32, u32)> = Vec::new();
    stack.push(start);
    let ghost mut parent: Seq<int> = seq![0];
    let ghost mut path_parent: Seq<int> = seq![];
    let ghost target = dfs_stroke(region);
    let ghost mut fuel: int = 1 + 8 * region.len() as int;
    proof {
        assert(positions(stack@) =~= seq![trace_start(region)]);
        assert(ipts(path@) =~= seq![]);
        assert(visited@ == Set::<(int, int)>::empty());
        assert(ipts(path@) + dfs_order(region, positions(stack@), visited@, fuel as nat) =~= target);
    }

    while stack.len() > 0
        invariant
            width == r.width,
            height == r.height,
            r == image@,
            r.valid(),
            image.wf(),
            region == pixels@,
            pixel_set.fits(r),
            visited.fits(r),
            forall|p: (int, int)| #[trigger] pixel_set@.contains(p) <==> holds(region, p),
            forall|k: int| 0 <= k < region.len() ==> r.in_bounds(pos(#[trigger] region[k]).0, pos(region[k]).1),
            holds(region, pos(start)),
            forall|p: (int, int)| #[trigger] visited@.contains(p) <==> ipts(path@).contains(p),
            walkable(region, ipts(path@)),
            path@.len() > 0 ==> ipts(path@)[0] == pos(start),
            path@.len() == 0 ==> stack@ == seq![start],
            forall|i: int| 0 <= i < stack@.len() ==> holds(region, pos(#[trigger] stack@[i])),
            parent.len() == stack@.len(),
            forall|i: int|
                0 <= i < stack@.len() && path@.len() > 0 ==> 0 <= #[trigger] parent[i] < path@.len()
                    && adjacent(ipts(path@)[parent[i]], pos(stack@[i])),
            path_parent.len() == path@.len(),
            forall|k: int|
                1 <= k < path@.len() ==> 0 <= #[trigger] path_parent[k] < k && adjacent(
                    ipts(path@)[path_parent[k]],
                    ipts(path@)[k],
                ),
            forall|j: int, q: (int, int)|
                0 <= j < path@.len() && #[trigger] adjacent(ipts(path@)[j], q) && holds(region, q)
                    ==> visited@.contains(q) || holds(stack@, q),
            forall|k: int| 0 <= k < path@.len() ==> r.in_bounds((#[trigger] path@[k]).0 as int, path@[k].1 as int),
            target == dfs_stroke(region),
            ipts(path@) + dfs_order(region, positions(stack@), visited@, fuel as nat) == target,
            fuel >= stack@.len() + 8 * (region.len() - path@.len()),
        decreases 8 * (region.len() - path@.len()) + stack@.len(),
    {
        proof {
            lemma_walk_bounded(region, ipts(path@));
        }
        let ghost old_stack = stack@;
        let ghost old_path = ipts(path@);
        let (x, y) = match stack.pop() {
            Some(p) => p,
            None => start,
        };
        let ghost s = pos((x, y));
        let ghost popped_parent = parent.last();
        let ghost old_visited = visited@;
        let ghost old_fuel = fuel;
        proof {
            assert(positions(old_stack).last() == s);
            assert(positions(old_stack).drop_last() =~= positions(stack@));
            assert(fuel >= 1);
            fuel = fuel - 1;
            parent = parent.drop_last();
            assert((x, y) == old_stack[old_stack.len() - 1]);
            assert(holds(region, s));
            let t = choose|t: int| 0 <= t < region.len() && #[trigger] pos(region[t]) == s;
            assert(r.in_bounds(pos(region[t]).0, pos(region[t]).1));
        }
        if !visited.contains(x, y) {
            let ghost vis_before = visited@;
            visited.insert(x, y);
            path.push((x as i32, y as i32));
            let ghost p_now = ipts(path@);
            proof {
                path_parent = path_parent.push(popped_parent);
                assert(p_now =~= old_path.push(s));
                assert forall|p: (int, int)| #[trigger] visited@.contains(p) <==> p_now.contains(p) by {
                    if p == s {
                        assert(p_now[p_now.len() - 1] == s);
                    } else {
                        if old_path.contains(p) {
                            let k = choose|k: int| 0 <= k < old_path.len() && old_path[k] == p;
                            assert(p_now[k] == p);
                        }
                        if p_now.contains(p) {
                            let k = choose|k: int| 0 <= k < p_now.len() && p_now[k] == p;
                            assert(k < old_path.len());
                            assert(old_path[k] == p);
                        }
                    }
                }
                assert forall|i: int, j: int| 0 <= i < p_now.len() && 0 <= j < p_now.len() && i != j implies p_now[i] != p_now[j] by {
                    if i < old_path.len() && j < old_path.len() {
                        assert(p_now[i] == old_path[i] && p_now[j] == old_path[j]);
                    } else if i < old_path.len() {
                        assert(old_path.contains(old_path[i]));
                    } else {
                        assert(old_path.contains(old_path[j]));
                    }
                }
                assert forall|k: int| 0 <= k < p_now.len() implies holds(region, #[trigger] p_now[k]) by {
                    if k < old_path.len() {
                        assert(p_now[k] == old_path[k]);
                    }
                }
                lemma_walk_bounded(region, p_now);
            }
            let ghost stack_mid = stack@;
            let ghost parent_mid = parent;
            let ghost rest_pos = positions(stack@);
            proof {
                assert(visited@ == old_visited.insert(s));
                assert(positions(stack@) =~= rest_pos + unvisited_neighbors(region, s, visited@, 0));
                lemma_unvisited_len(region, s, visited@, 8);
                assert(dfs_order(region, positions(old_stack), old_visited, old_fuel as nat) == seq![s]
                    + dfs_order(
                    region,
                    rest_pos + unvisited_neighbors(region, s, visited@, 8),
                    visited@,
                    fuel as nat,
                ));
                assert(ipts(path@) + dfs_order(
                    region,
                    rest_pos + unvisited_neighbors(region, s, visited@, 8),
                    visited@,
                    fuel as nat,
                ) =~= target);
            }
            let mut k: usize = 0;
            while k < 8
                invariant
                    k <= 8,
                    width == r.width,
                    height == r.height,
                    r.valid(),
                    pixel_set.fits(r),
                    visited.fits(r),
                    forall|p: (int, int)| #[trigger] pixel_set@.contains(p) <==> holds(region, p),
                    forall|p: (int, int)| #[trigger] visited@.contains(p) <==> p_now.contains(p),
                    s == pos((x, y)),
                    x < r.width,
                    y < r.height,
                    stack_mid.len() <= stack@.len() <= stack_mid.len() + k,
                    parent.len() == stack@.len(),
                    p_now.len() > 0,
                    forall|i: int| 0 <= i < stack_mid.len() ==> #[trigger] parent[i] == parent_mid[i],
                    forall|i: int| stack_mid.len() <= i < stack@.len() ==> #[trigger] parent[i] == p_now.len() - 1,
                    stack@.subrange(0, stack_mid.len() as int) == stack_mid,
                    forall|t: int| 0 <= t < region.len() ==> r.in_bounds(pos(#[trigger] region[t]).0, pos(region[t]).1),
                    forall|i: int| stack_mid.len() <= i < stack@.len() ==> holds(region, pos(#[trigger] stack@[i])) && adjacent(s, pos(stack@[i])),
                    forall|jj: int|
                        0 <= jj < k ==> {
                            let q = (s.0 + neighbor_offset(jj).0, s.1 + neighbor_offset(jj).1);
                            holds(region, q) ==> #[trigger] visited@.contains(
                                (s.0 + neighbor_offset(jj).0, s.1 + neighbor_offset(jj).1),
                            ) || holds(stack@, q)
                        },
                    positions(stack@) == rest_pos + unvisited_neighbors(region, s, visited@, k as int),
                decreases 8 - k,
            {
                let d = neighbor(k);
                let nx: i64 = x as i64 + d.0 as i64;
                let ny: i64 = y as i64 + d.1 as i64;
                let ghost q = (s.0 + neighbor_offset(k as int).0, s.1 + neighbor_offset(k as int).1);
                let ghost st_before = stack@;
                if nx >= 0 && nx < width as i64 && ny >= 0 && ny < height as i64 {
                    let qx = nx as u32;
                    let qy = ny as u32;
                    if pixel_set.contains(qx, qy) && !visited.contains(qx, qy) {
                        stack.push((qx, qy));
                        proof {
                            parent = parent.push(p_now.len() - 1);
                            assert(pos(stack@[stack@.len() - 1]) == q);
                            assert(positions(stack@) =~= positions(st_before).push(q));
                            assert(unvisited_neighbors(region, s, visited@, k + 1) =~= unvisited_neighbors(
                                region,
                                s,
                                visited@,
                                k as int,
                            ).push(q));
                        }
                    } else {
                        proof {
                            assert(unvisited_neighbors(region, s, visited@, k + 1) =~= unvisited_neighbors(
                                region,
                                s,
                                visited@,
                                k as int,
                            ));
                        }
                    }
                } else {
                    proof {
                        if holds(region, q) {
                            let t = choose|t: int| 0 <= t < region.len() && #[trigger] pos(region[t]) == q;
                            assert(r.in_bounds(pos(region[t]).0, pos(region[t]).1));
                        }
                        assert(unvisited_neighbors(region, s, visited@, k + 1) =~= unvisited_neighbors(
                            region,
                            s,
                            visited@,
                            k as int,
                        ));
                    }
                }
                proof {
                    assert forall|jj: int| 0 <= jj < k + 1 implies {
                        let q2 = (s.0 + neighbor_offset(jj).0, s.1 + neighbor_offset(jj).1);
                        holds(region, q2) ==> #[trigger] visited@.contains(
                            (s.0 + neighbor_offset(jj).0, s.1 + neighbor_offset(jj).1),
                        ) || holds(stack@, q2)
                    } by {
                        let q2 = (s.0 + neighbor_offset(jj).0, s.1 + neighbor_offset(jj).1);
                        if jj < k && holds(region, q2) && !visited@.contains(q2) {
                            let i = choose|i: int| 0 <= i < st_before.len() && #[trigger] pos(st_before[i]) == q2;
                            assert(stack@[i] == st_before[i]);
                            assert(pos(stack@[i]) == q2);
                        }
                    }
                    assert(stack@.subrange(0, stack_mid.len() as int) =~= stack_mid);
                }
                k = k + 1;
            }
            proof {
                // the closure holds for the new path pixel
                assert forall|j: int, q: (int, int)|
                    0 <= j < p_now.len() && #[trigger] adjacent(p_now[j], q) && holds(region, q) implies visited@.contains(q) || holds(stack@, q) by {
                    if j == p_now.len() - 1 {
                        lemma_adjacent_has_offset(s, q);
                        let kk = choose|kk: int| 0 <= kk < 8 && q == (s.0 + #[trigger] neighbor_offset(kk).0, s.1 + neighbor_offset(kk).1);
                    } else {
                        assert(p_now[j] == old_path[j]);
                        assert(vis_before.contains(q) || holds(old_stack, q));
                        if !vis_before.contains(q) && q != s {
                            let i = choose|i: int| 0 <= i < old_stack.len() && #[trigger] pos(old_stack[i]) == q;
                            assert(i < old_stack.len() - 1);
                            assert(stack_mid[i] == old_stack[i]);
                            assert(stack@[i] == stack_mid[i]);
                            assert(pos(stack@[i]) == q);
                        }
                    }
                }
                assert forall|i: int| 0 <= i < stack@.len() implies holds(region, pos(#[trigger] stack@[i])) by {
                    if i < stack_mid.len() {
                        assert(stack@[i] == stack_mid[i]);
                        assert(stack_mid[i] == old_stack[i]);
                    }
                }
                assert forall|i: int| 0 <= i < stack@.len() && path@.len() > 0 implies 0 <= #[trigger] parent[i] < path@.len()
                    && adjacent(ipts(path@)[parent[i]], pos(stack@[i])) by {
                    if i < stack_mid.len() {
                        assert(stack@[i] == stack_mid[i]);
                        assert(stack_mid[i] == old_stack[i]);
                        assert(parent[i] == parent_mid[i]);
                        if old_path.len() > 0 {
                            assert(p_now[parent[i]] == old_path[parent[i]]);
                        } else {
                            assert(old_stack.len() == 1);
                        }
                    } else {
                        assert(adjacent(p_now[p_now.len() - 1], pos(stack@[i])));
                    }
                }
                assert forall|kk: int| 1 <= kk < p_now.len() implies 0 <= #[trigger] path_parent[kk] < kk && adjacent(
                    p_now[path_parent[kk]],
                    p_now[kk],
                ) by {
                    if kk < old_path.len() {
                        assert(p_now[path_parent[kk]] == old_path[path_parent[kk]] && p_now[kk] == old_path[kk]);
                    } else {
                        assert(old_path.len() > 0);
                        assert(p_now[popped_parent] == old_path[popped_parent]);
                    }
                }
                if old_path.len() > 0 {
                    assert(p_now[0] == old_path[0]);
                }

                assert forall|kk: int| 0 <= kk < path@.len() implies r.in_bounds((#[trigger] path@[kk]).0 as int, path@[kk].1 as int) by {
                    if kk == path@.len() - 1 {
                        assert(path@[kk] == (x as i32, y as i32));
                    }
                }
            }
        } else {
            proof {
                assert(stack@ =~= old_stack.drop_last());
                assert(dfs_order(region, positions(old_stack), old_visited, old_fuel as nat) == dfs_order(
                    region,
                    positions(stack@),
                    visited@,
                    fuel as nat,
                ));
                assert forall|i: int| 0 <= i < stack@.len() && path@.len() > 0 implies 0 <= #[trigger] parent[i] < path@.len()
                    && adjacent(ipts(path@)[parent[i]], pos(stack@[i])) by {
                    assert(stack@[i] == old_stack[i]);
                }
                assert forall|i: int| 0 <= i < stack@.len() implies holds(region, pos(#[trigger] stack@[i])) by {
                    assert(stack@[i] == old_stack[i]);
                }
                assert forall|j: int, q: (int, int)|
                    0 <= j < path@.len() && #[trigger] adjacent(ipts(path@)[j], q) && holds(region, q) implies visited@.contains(q) || holds(stack@, q) by {
                    if !visited@.contains(q) {
                        let i = choose|i: int| 0 <= i < old_stack.len() && #[trigger] pos(old_stack[i]) == q;
                        if i == old_stack.len() - 1 {
                            assert(q == s);
                        } else {
                            assert(stack@[i] == old_stack[i]);
                            assert(pos(stack@[i]) == q);
                        }
                    }
                }
                assert(path@.len() > 0);
            }
        }
    }
    proof {
        let p = ipts(path@);
        assert(positions(stack@) =~= seq![]);
        assert(p + seq![] =~= p);
        assert(path@.len() > 0);
        assert(path_closed(region, p));
        let m = choose|m: int| 0 <= m < region.len() && #[trigger] pos(region[m]) == pos(start);
        assert forall|k: int| 1 <= k < p.len() implies exists|j: int| 0 <= j < k && adjacent(p[j], #[trigger] p[k]) by {
            assert(0 <= path_parent[k] < k);
        }
        assert(p[0] == pos(start));
        assert(visits(region, p));
        if region_connected(region) {
            lemma_closed_path_covers(region, p, m);
        }
    }
    path
}

/// The regions of `found` with at least `min` pixels, in their order.
pub open spec fn regions_at_least(found: Seq<Seq<(u32, u32)>>, min: int) -> Seq<Seq<(u32, u32)>>
    decreases found.len(),
{
    if found.len() == 0 {
        seq![]
    } else {
        let rest = regions_at_least(found.drop_last(), min);
        if found.last().len() >= min {
            rest.push(found.last())
        } else {
            rest
        }
    }
}

/// Stroke `i` is the depth-first trace of region `i`, for every region.
pub open spec fn strokes_trace(regions: Seq<Seq<(u32, u32)>>, strokes: Seq<Seq<(i32, i32)>>) -> bool {
    &&& strokes.len() == regions.len()
    &&& forall|i: int|
        0 <= i < regions.len() ==> traces(regions[i], ipts(#[trigger] strokes[i])) && ipts(strokes[i])
            == dfs_stroke(regions[i])
}

/// Finds the 8-connected components of the non-black pixels in row-major order of
/// their first pixel, and traces each one with at least `min_points` pixels into a
/// stroke.
pub fn find_all_components(edges: &GrayImage, min_points: usize) -> (components: Vec<Component>)
    requires
        edges.wf(),
    ensures
        exists|found: Seq<Seq<(u32, u32)>>|
            scanned_as(edges@, found) && strokes_trace(
                regions_at_least(found, min_points as int),
                paths(components@),
            ),
        forall|i: int, k: int|
            0 <= i < components@.len() && 0 <= k < components@[i].points@.len() ==> edges@.in_bounds(
                (#[trigger] components@[i].points@[k]).0 as int,
                components@[i].points@[k].1 as int,
            ),
{
    let (width, height) = edges.dimensions();
    let ghost r = edges@;
    proof {
        edges.lemma_valid();
    }
    let mut visited = PixelSet::for_image(edges);
    let mut components: Vec<Component> = Vec::new();
    let ghost mut found: Seq<Seq<(u32, u32)>> = seq![];
    proof {
        assert(component_positions(found) =~= seq![]);
    }

    let mut y: u32 = 0;
    while y < height
        invariant
            width == r.width,
            height == r.height,
            r == edges@,
            r.valid(),
            edges.wf(),
            visited.fits(r),
            y <= height,
            scan_invariant(r, found, visited@, 0, y as int),
            scan_components(r, 0, y as int, visited@, component_positions(found)) == scanned_components(r),
            strokes_trace(regions_at_least(found, min_points as int), paths(components@)),
            forall|i: int, k: int|
                0 <= i < components@.len() && 0 <= k < components@[i].points@.len() ==> r.in_bounds(
                    (#[trigger] components@[i].points@[k]).0 as int,
                    components@[i].points@[k].1 as int,
                ),
        decreases height - y,
    {
        let mut x: u32 = 0;
        while x < width
            invariant
                width == r.width,
                height == r.height,
                r == edges@,
                r.valid(),
                edges.wf(),
                visited.fits(r),
                y < height,
                x <= width,
                scan_invariant(r, found, visited@, x as int, y as int),
                scan_components(r, x as int, y as int, visited@, component_positions(found))
                    == scanned_components(r),
                strokes_trace(regions_at_least(found, min_points as int), paths(components@)),
                forall|i: int, k: int|
                    0 <= i < components@.len() && 0 <= k < components@[i].points@.len() ==> r.in_bounds(
                        (#[trigger] components@[i].points@[k]).0 as int,
                        components@[i].points@[k].1 as int,
                    ),
            decreases width - x,
        {
            if edges.get_pixel(x, y) > 0 && !visited.contains(x, y) {
                let ghost seen = visited@;
                let pixels = flood_fill(edges, x, y, &mut visited);
                let ghost c = pixels@;
                proof {
                    lemma_scan_step_new(r, found, c, seen, visited@, x as int, y as int);
                    lemma_scan_takes(r, x as int, y as int, seen, visited@, found, c);
                    assert(found.push(c).drop_last() =~= found);
                    assert(found.push(c).last() == c);
                }
                if pixels.len() >= min_points {
                    proof {
                        lemma_grown_connected(r, c);
                        assert forall|k: int| 0 <= k < c.len() implies r.in_bounds(
                            pos(#[trigger] c[k]).0,
                            pos(c[k]).1,
                        ) by {
                            assert(r.is_fg(pos(c[k]).0, pos(c[k]).1));
                        }
                    }
                    let path = trace_path(edges, &pixels);
                    let ghost before = components@;
                    components.push(Component { points: path });
                    proof {
                        assert(paths(components@) =~= paths(before).push(path@));
                    }
                }
                proof {
                    found = found.push(c);
                }
            } else {
                proof {
                    lemma_scan_step_skip(r, found, visited@, x as int, y as int);
                }
            }
            x = x + 1;
        }
        proof {
            lemma_scan_next_row(r, found, visited@, x as int, y as int);
            assert(scan_components(r, x as int, y as int, visited@, component_positions(found))
                == scan_components(r, 0, y + 1, visited@, component_positions(found)));
        }
        y = y + 1;
    }
    proof {
        lemma_scan_done(r, found, visited@, y as int);
        assert(component_positions(found) == scanned_components(r));
        assert(scanned_as(r, found));
    }
    components
}

} // verus!
