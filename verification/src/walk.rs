//! Walking the largest component of a skeleton into an ordered contour.

use vstd::prelude::*;
use crate::bridging::{bridge_gaps, bridged, count_neighbors_on_image, fg_neighbor_count};
use crate::components::{scanned_as, find_all_components_raw, holds, selection_of};
use crate::raster::{
    GrayImage, PixelSet, Raster, adjacent, lemma_adjacent_has_offset, lemma_neighbor_offsets_adjacent,
    neighbor, neighbor_offset, pos,
};
use crate::stable_sort::sort_by_len_desc;

verus! {

/// Integer coordinates of contour points.
pub open spec fn ipts(s: Seq<(i32, i32)>) -> Seq<(int, int)> {
    s.map_values(|p: (i32, i32)| (p.0 as int, p.1 as int))
}

/// Among the first `k` neighbour offsets of `cur`, the positions inside the image
/// that belong to the region and are not yet on the path, in offset order.
pub open spec fn open_neighbors_upto(
    r: Raster,
    region: Seq<(u32, u32)>,
    path: Seq<(int, int)>,
    cur: (int, int),
    k: int,
) -> Seq<(int, int)>
    decreases k,
{
    if k <= 0 {
        seq![]
    } else {
        let q = (cur.0 + neighbor_offset(k - 1).0, cur.1 + neighbor_offset(k - 1).1);
        open_neighbors_upto(r, region, path, cur, k - 1) + if r.in_bounds(q.0, q.1) && holds(
            region,
            q,
        ) && !path.contains(q) {
            seq![q]
        } else {
            seq![]
        }
    }
}

/// How far a step from `cur` to `n` turns away from the step from `prev` to `cur`
/// (the negated dot product of the two steps): smaller is straighter.
pub open spec fn turn_key(prev: (int, int), cur: (int, int), n: (int, int)) -> int {
    -((cur.0 - prev.0) * (n.0 - cur.0) + (cur.1 - prev.1) * (n.1 - cur.1))
}

/// Among the first `m` candidates, the position of the straightest; the first one
/// among equally straight ones.
pub open spec fn straightest_upto(
    cands: Seq<(int, int)>,
    prev: (int, int),
    cur: (int, int),
    m: int,
) -> int
    decreases m,
{
    if m <= 1 {
        0
    } else {
        let b = straightest_upto(cands, prev, cur, m - 1);
        if turn_key(prev, cur, cands[m - 1]) < turn_key(prev, cur, cands[b]) {
            m - 1
        } else {
            b
        }
    }
}

proof fn lemma_straightest_in_range(cands: Seq<(int, int)>, prev: (int, int), cur: (int, int), m: int)
    requires
        m >= 1,
    ensures
        0 <= straightest_upto(cands, prev, cur, m) < m,
    decreases m,
{
    if m > 1 {
        lemma_straightest_in_range(cands, prev, cur, m - 1);
    }
}

/// The next pixel of the walk: none when no neighbour of the current pixel is left;
/// the only one when there is one; otherwise the straightest continuation of the
/// last step, or the first candidate while the path has a single pixel.
pub open spec fn next_step(r: Raster, region: Seq<(u32, u32)>, path: Seq<(int, int)>) -> Option<
    (int, int),
> {
    let cur = path.last();
    let cands = open_neighbors_upto(r, region, path, cur, 8);
    if cands.len() == 0 {
        None
    } else if cands.len() == 1 || path.len() < 2 {
        Some(cands[0])
    } else {
        Some(cands[straightest_upto(cands, path[path.len() - 2], cur, cands.len() as int)])
    }
}

proof fn lemma_open_neighbors(
    r: Raster,
    region: Seq<(u32, u32)>,
    path: Seq<(int, int)>,
    cur: (int, int),
    k: int,
)
    ensures
        forall|i: int|
            0 <= i < open_neighbors_upto(r, region, path, cur, k).len() ==> {
                let q = #[trigger] open_neighbors_upto(r, region, path, cur, k)[i];
                holds(region, q) && !path.contains(q)
            },
    decreases k,
{
    if k > 0 {
        lemma_open_neighbors(r, region, path, cur, k - 1);
        let pre = open_neighbors_upto(r, region, path, cur, k - 1);
        let all = open_neighbors_upto(r, region, path, cur, k);
        assert forall|i: int| 0 <= i < all.len() implies {
            let q = #[trigger] all[i];
            holds(region, q) && !path.contains(q)
        } by {
            if i < pre.len() {
                assert(all[i] == pre[i]);
            }
        }
    }
}

/// The path's pixels are distinct pixels of the region.
pub open spec fn walkable(region: Seq<(u32, u32)>, path: Seq<(int, int)>) -> bool {
    path.no_duplicates() && forall|k: int| 0 <= k < path.len() ==> holds(region, #[trigger] path[k])
}

/// A path of distinct pixels of the region is no longer than the region.
pub proof fn lemma_walk_bounded(region: Seq<(u32, u32)>, path: Seq<(int, int)>)
    requires
        walkable(region, path),
    ensures
        path.len() <= region.len(),
{
    let cs = region.map_values(|p: (u32, u32)| pos(p));
    assert(path.to_set().subset_of(cs.to_set())) by {
        assert forall|q: (int, int)| path.to_set().contains(q) implies cs.to_set().contains(q) by {
            let k = choose|k: int| 0 <= k < path.len() && path[k] == q;
            assert(holds(region, path[k]));
            let j = choose|j: int| 0 <= j < region.len() && #[trigger] pos(region[j]) == q;
            assert(cs[j] == q);
        }
    }
    path.unique_seq_to_set();
    cs.lemma_cardinality_of_set();
    vstd::set_lib::lemma_len_subset(path.to_set(), cs.to_set());
}

/// Extending the path with its next step keeps it walkable.
pub proof fn lemma_next_step_walkable(r: Raster, region: Seq<(u32, u32)>, path: Seq<(int, int)>)
    requires
        walkable(region, path),
        path.len() > 0,
        next_step(r, region, path) is Some,
    ensures
        walkable(region, path.push(next_step(r, region, path)->0)),
        path.len() < region.len(),
{
    let cur = path.last();
    let cands = open_neighbors_upto(r, region, path, cur, 8);
    lemma_open_neighbors(r, region, path, cur, 8);
    let q = next_step(r, region, path)->0;
    if cands.len() >= 2 && path.len() >= 2 {
        lemma_straightest_in_range(cands, path[path.len() - 2], cur, cands.len() as int);
    }
    assert(holds(region, q) && !path.contains(q));
    let np = path.push(q);
    assert forall|i: int, j: int| 0 <= i < np.len() && 0 <= j < np.len() && i != j implies np[i]
        != np[j] by {
        if i < path.len() && j < path.len() {
        } else if i < path.len() {
            assert(path.contains(path[i]));
        } else {
            assert(path.contains(path[j]));
        }
    }
    assert forall|k: int| 0 <= k < np.len() implies holds(region, #[trigger] np[k]) by {
        if k < path.len() {
            assert(np[k] == path[k]);
        }
    }
    lemma_walk_bounded(region, np);
}

/// The walk from `path`: repeat `next_step` until it gives nothing.
pub open spec fn walk_from(r: Raster, region: Seq<(u32, u32)>, path: Seq<(int, int)>) -> Seq<
    (int, int),
>
    decreases region.len() - path.len(),
    when walkable(region, path) && path.len() > 0
{
    match next_step(r, region, path) {
        None => path,
        Some(q) => {
            proof {
                lemma_next_step_walkable(r, region, path);
            }
            walk_from(r, region, path.push(q))
        },
    }
}

/// The position of the first pixel of `region` from `k` on that has exactly one
/// non-black neighbour, if any.
pub open spec fn first_end_from(r: Raster, region: Seq<(u32, u32)>, k: int) -> Option<int>
    decreases region.len() - k,
{
    if k >= region.len() || k < 0 {
        None
    } else if fg_neighbor_count(r, region[k].0 as int, region[k].1 as int) == 1 {
        Some(k)
    } else {
        first_end_from(r, region, k + 1)
    }
}

proof fn lemma_first_end_in_range(r: Raster, region: Seq<(u32, u32)>, k: int)
    requires
        0 <= k,
    ensures
        first_end_from(r, region, k) matches Some(i) ==> k <= i < region.len(),
    decreases region.len() - k,
{
    if k < region.len() {
        lemma_first_end_in_range(r, region, k + 1);
    }
}

/// What the search from position `k` finds: the first pixel at or after `k` with
/// exactly one non-black neighbour, or that there is none.
proof fn lemma_first_end_found(r: Raster, region: Seq<(u32, u32)>, k: int)
    requires
        0 <= k,
    ensures
        match first_end_from(r, region, k) {
            Some(m) => k <= m < region.len() && fg_neighbor_count(
                r,
                region[m].0 as int,
                region[m].1 as int,
            ) == 1 && forall|q: int|
                k <= q < m ==> fg_neighbor_count(
                    r,
                    (#[trigger] region[q]).0 as int,
                    region[q].1 as int,
                ) != 1,
            None => forall|q: int|
                k <= q < region.len() ==> fg_neighbor_count(
                    r,
                    (#[trigger] region[q]).0 as int,
                    region[q].1 as int,
                ) != 1,
        },
    decreases region.len() - k,
{
    if k < region.len() {
        lemma_first_end_found(r, region, k + 1);
    }
}

/// Where the walk starts: the first stroke end of the region, or its first pixel.
pub open spec fn walk_start(r: Raster, region: Seq<(u32, u32)>) -> (int, int) {
    match first_end_from(r, region, 0) {
        Some(k) => pos(region[k]),
        None => pos(region[0]),
    }
}

/// The contour of a region: empty for no region, otherwise the walk from its start.
pub open spec fn region_walk(r: Raster, region: Seq<(u32, u32)>) -> Seq<(int, int)> {
    if region.len() == 0 {
        seq![]
    } else {
        walk_from(r, region, seq![walk_start(r, region)])
    }
}

proof fn lemma_open_neighbors_adjacent(
    r: Raster,
    region: Seq<(u32, u32)>,
    path: Seq<(int, int)>,
    cur: (int, int),
    k: int,
)
    requires
        k <= 8,
    ensures
        forall|i: int|
            0 <= i < open_neighbors_upto(r, region, path, cur, k).len() ==> adjacent(
                cur,
                #[trigger] open_neighbors_upto(r, region, path, cur, k)[i],
            ),
    decreases k,
{
    if k > 0 {
        lemma_open_neighbors_adjacent(r, region, path, cur, k - 1);
        lemma_neighbor_offsets_adjacent(k - 1, cur);
        let pre = open_neighbors_upto(r, region, path, cur, k - 1);
        let all = open_neighbors_upto(r, region, path, cur, k);
        assert forall|i: int| 0 <= i < all.len() implies adjacent(cur, #[trigger] all[i]) by {
            if i < pre.len() {
                assert(all[i] == pre[i]);
            }
        }
    }
}

/// Consecutive positions of `path` are neighbours.
pub open spec fn steps_adjacent(path: Seq<(int, int)>) -> bool {
    forall|k: int| 0 <= k < path.len() - 1 ==> adjacent(#[trigger] path[k], path[k + 1])
}

proof fn lemma_walk_from_shape(r: Raster, region: Seq<(u32, u32)>, path: Seq<(int, int)>)
    requires
        walkable(region, path),
        path.len() > 0,
        steps_adjacent(path),
    ensures
        walk_from(r, region, path).len() >= path.len(),
        walk_from(r, region, path).subrange(0, path.len() as int) == path,
        walkable(region, walk_from(r, region, path)),
        steps_adjacent(walk_from(r, region, path)),
    decreases region.len() - path.len(),
{
    match next_step(r, region, path) {
        None => {
            assert(path.subrange(0, path.len() as int) =~= path);
        },
        Some(q) => {
            lemma_next_step_walkable(r, region, path);
            let cur = path.last();
            let cands = open_neighbors_upto(r, region, path, cur, 8);
            lemma_open_neighbors_adjacent(r, region, path, cur, 8);
            if cands.len() >= 2 && path.len() >= 2 {
                lemma_straightest_in_range(cands, path[path.len() - 2], cur, cands.len() as int);
            }
            assert(adjacent(cur, q));
            let np = path.push(q);
            assert forall|k: int| 0 <= k < np.len() - 1 implies adjacent(#[trigger] np[k], np[k + 1]) by {
                if k < path.len() - 1 {
                    assert(np[k] == path[k] && np[k + 1] == path[k + 1]);
                } else {
                    assert(np[k] == cur);
                }
            }
            lemma_walk_from_shape(r, region, np);
            let w = walk_from(r, region, np);
            assert(w.subrange(0, path.len() as int) =~= w.subrange(0, np.len() as int).subrange(
                0,
                path.len() as int,
            ));
            assert(np.subrange(0, path.len() as int) =~= path);
        },
    }
}

/// Law: the walk of a non-empty region starts at the region's walk start, visits
/// distinct pixels of the region, and each step goes to one of the eight neighbours.
pub proof fn lemma_region_walk_shape(r: Raster, region: Seq<(u32, u32)>)
    requires
        region.len() > 0,
    ensures
        region_walk(r, region).len() >= 1,
        region_walk(r, region)[0] == walk_start(r, region),
        walkable(region, region_walk(r, region)),
        steps_adjacent(region_walk(r, region)),
{
    lemma_first_end_in_range(r, region, 0);
    let s = walk_start(r, region);
    let p = seq![s];
    match first_end_from(r, region, 0) {
        Some(k) => {
            assert(pos(region[k]) == s);
        },
        None => {
            assert(pos(region[0]) == s);
        },
    }
    assert(holds(region, p[0]));
    assert(walkable(region, p));
    lemma_walk_from_shape(r, region, p);
    assert(region_walk(r, region) == walk_from(r, region, p));
    assert(region_walk(r, region).subrange(0, 1)[0] == s);
}

/// Law: the walk of a region starts at a stroke end whenever the region has one:
/// at the first of its pixels (in region order) with exactly one non-black
/// neighbour; only a region without such a pixel is walked from its first pixel.
pub proof fn lemma_walk_starts_at_stroke_end(r: Raster, region: Seq<(u32, u32)>)
    requires
        region.len() > 0,
    ensures
        (exists|k: int|
            0 <= k < region.len() && fg_neighbor_count(
                r,
                (#[trigger] region[k]).0 as int,
                region[k].1 as int,
            ) == 1) ==> exists|m: int|
            0 <= m < region.len() && region_walk(r, region)[0] == pos(#[trigger] region[m])
                && fg_neighbor_count(r, region[m].0 as int, region[m].1 as int) == 1 && forall|
                q: int,
            |
                0 <= q < m ==> fg_neighbor_count(
                    r,
                    (#[trigger] region[q]).0 as int,
                    region[q].1 as int,
                ) != 1,
        (forall|k: int|
            0 <= k < region.len() ==> fg_neighbor_count(
                r,
                (#[trigger] region[k]).0 as int,
                region[k].1 as int,
            ) != 1) ==> region_walk(r, region)[0] == pos(region[0]),
{
    lemma_region_walk_shape(r, region);
    lemma_first_end_found(r, region, 0);
    match first_end_from(r, region, 0) {
        Some(m) => {
            assert(region_walk(r, region)[0] == pos(region[m]));
        },
        None => {
        },
    }
}

/// Every unvisited pixel of the region inside the image reached by one of the
/// first `k` neighbour offsets of `cur` is a candidate.
proof fn lemma_open_neighbors_complete(
    r: Raster,
    region: Seq<(u32, u32)>,
    path: Seq<(int, int)>,
    cur: (int, int),
    k: int,
    j: int,
)
    requires
        0 <= j < k <= 8,
        r.in_bounds(cur.0 + neighbor_offset(j).0, cur.1 + neighbor_offset(j).1),
        holds(region, (cur.0 + neighbor_offset(j).0, cur.1 + neighbor_offset(j).1)),
        !path.contains((cur.0 + neighbor_offset(j).0, cur.1 + neighbor_offset(j).1)),
    ensures
        open_neighbors_upto(r, region, path, cur, k).contains(
            (cur.0 + neighbor_offset(j).0, cur.1 + neighbor_offset(j).1),
        ),
    decreases k,
{
    let q = (cur.0 + neighbor_offset(j).0, cur.1 + neighbor_offset(j).1);
    let pre = open_neighbors_upto(r, region, path, cur, k - 1);
    let all = open_neighbors_upto(r, region, path, cur, k);
    if j < k - 1 {
        lemma_open_neighbors_complete(r, region, path, cur, k - 1, j);
        let i = choose|i: int| 0 <= i < pre.len() && pre[i] == q;
        assert(all[i] == pre[i]);
    } else {
        assert(all[pre.len() as int] == q);
    }
}

/// The walk from `path` stops only where no step is left.
proof fn lemma_walk_from_stuck(r: Raster, region: Seq<(u32, u32)>, path: Seq<(int, int)>)
    requires
        walkable(region, path),
        path.len() > 0,
    ensures
        next_step(r, region, walk_from(r, region, path)) is None,
    decreases region.len() - path.len(),
{
    match next_step(r, region, path) {
        None => {},
        Some(q) => {
            lemma_next_step_walkable(r, region, path);
            lemma_walk_from_stuck(r, region, path.push(q));
        },
    }
}

/// Law: the walk of a non-empty region goes on as long as it can: every pixel of
/// the region inside the image that neighbours the walk's last pixel is already
/// on the walk.
pub proof fn lemma_walk_ends_stuck(r: Raster, region: Seq<(u32, u32)>)
    requires
        region.len() > 0,
    ensures
        forall|q: (int, int)|
            adjacent(region_walk(r, region).last(), q) && r.in_bounds(q.0, q.1) && #[trigger] holds(
                region,
                q,
            ) ==> region_walk(r, region).contains(q),
{
    lemma_region_walk_shape(r, region);
    lemma_first_end_in_range(r, region, 0);
    let s = walk_start(r, region);
    let p = seq![s];
    match first_end_from(r, region, 0) {
        Some(k) => {
            assert(pos(region[k]) == s);
        },
        None => {
            assert(pos(region[0]) == s);
        },
    }
    assert(holds(region, p[0]));
    assert(walkable(region, p));
    lemma_walk_from_stuck(r, region, p);
    let w = region_walk(r, region);
    assert(w == walk_from(r, region, p));
    let cur = w.last();
    assert forall|q: (int, int)|
        adjacent(cur, q) && r.in_bounds(q.0, q.1) && #[trigger] holds(region, q) implies w.contains(
        q,
    ) by {
        if !w.contains(q) {
            lemma_adjacent_has_offset(cur, q);
            let j = choose|j: int|
                0 <= j < 8 && q == (cur.0 + #[trigger] neighbor_offset(j).0, cur.1 + neighbor_offset(
                    j,
                ).1);
            lemma_open_neighbors_complete(r, region, w, cur, 8, j);
        }
    }
}

/// The walk from `path` starts with `path`.
proof fn lemma_walk_from_prefix(r: Raster, region: Seq<(u32, u32)>, path: Seq<(int, int)>)
    requires
        walkable(region, path),
        path.len() > 0,
    ensures
        walk_from(r, region, path).len() >= path.len(),
        walk_from(r, region, path).subrange(0, path.len() as int) == path,
    decreases region.len() - path.len(),
{
    match next_step(r, region, path) {
        None => {
            assert(path.subrange(0, path.len() as int) =~= path);
        },
        Some(q) => {
            lemma_next_step_walkable(r, region, path);
            let np = path.push(q);
            lemma_walk_from_prefix(r, region, np);
            let w = walk_from(r, region, np);
            assert(w.subrange(0, path.len() as int) =~= w.subrange(0, np.len() as int).subrange(
                0,
                path.len() as int,
            ));
            assert(np.subrange(0, path.len() as int) =~= path);
        },
    }
}

/// Each pixel the walk adds after `path` is the step taken from the walk so far.
proof fn lemma_walk_from_steps(r: Raster, region: Seq<(u32, u32)>, path: Seq<(int, int)>)
    requires
        walkable(region, path),
        path.len() > 0,
    ensures
        forall|k: int|
            path.len() - 1 <= k < walk_from(r, region, path).len() - 1 ==> next_step(
                r,
                region,
                #[trigger] walk_from(r, region, path).subrange(0, k + 1),
            ) == Some(walk_from(r, region, path)[k + 1]),
    decreases region.len() - path.len(),
{
    let w = walk_from(r, region, path);
    match next_step(r, region, path) {
        None => {},
        Some(q) => {
            lemma_next_step_walkable(r, region, path);
            let np = path.push(q);
            lemma_walk_from_steps(r, region, np);
            lemma_walk_from_prefix(r, region, np);
            assert(w == walk_from(r, region, np));
            assert forall|k: int| path.len() - 1 <= k < w.len() - 1 implies next_step(
                r,
                region,
                #[trigger] w.subrange(0, k + 1),
            ) == Some(w[k + 1]) by {
                if k == path.len() - 1 {
                    assert(w.subrange(0, np.len() as int) == np);
                    assert(w.subrange(0, k + 1) =~= path);
                    assert(w[k + 1] == np[k + 1]);
                }
            }
        },
    }
}

/// The chosen candidate turns least, and strictly less than every earlier one.
proof fn lemma_straightest_is_minimal(
    cands: Seq<(int, int)>,
    prev: (int, int),
    cur: (int, int),
    m: int,
)
    requires
        m >= 1,
    ensures
        forall|j: int|
            0 <= j < m ==> turn_key(prev, cur, cands[straightest_upto(cands, prev, cur, m)])
                <= #[trigger] turn_key(prev, cur, cands[j]),
        forall|j: int|
            0 <= j < straightest_upto(cands, prev, cur, m) ==> turn_key(
                prev,
                cur,
                cands[straightest_upto(cands, prev, cur, m)],
            ) < #[trigger] turn_key(prev, cur, cands[j]),
    decreases m,
{
    if m > 1 {
        lemma_straightest_is_minimal(cands, prev, cur, m - 1);
        lemma_straightest_in_range(cands, prev, cur, m - 1);
    }
}

/// Law: after its first step the walk always takes the straightest continuation:
/// from the pixel at position `k` it moves to a pixel whose step turns no more
/// away from the step into position `k` (by the negated dot product of the two
/// steps) than the step to any other unvisited neighbouring pixel of the region
/// inside the image.
pub proof fn lemma_walk_goes_straightest(r: Raster, region: Seq<(u32, u32)>)
    requires
        region.len() > 0,
    ensures
        forall|k: int, q: (int, int)|
            1 <= k < region_walk(r, region).len() - 1 && adjacent(region_walk(r, region)[k], q)
                && r.in_bounds(q.0, q.1) && holds(region, q) && !region_walk(r, region).subrange(
                0,
                k + 1,
            ).contains(q) ==> turn_key(
                region_walk(r, region)[k - 1],
                region_walk(r, region)[k],
                region_walk(r, region)[k + 1],
            ) <= #[trigger] turn_key(region_walk(r, region)[k - 1], region_walk(r, region)[k], q),
{
    lemma_region_walk_shape(r, region);
    lemma_first_end_in_range(r, region, 0);
    let s = walk_start(r, region);
    let p = seq![s];
    match first_end_from(r, region, 0) {
        Some(k) => {
            assert(pos(region[k]) == s);
        },
        None => {
            assert(pos(region[0]) == s);
        },
    }
    assert(holds(region, p[0]));
    assert(walkable(region, p));
    let w = region_walk(r, region);
    assert(w == walk_from(r, region, p));
    lemma_walk_from_steps(r, region, p);
    assert forall|k: int, q: (int, int)|
        1 <= k < w.len() - 1 && adjacent(w[k], q) && r.in_bounds(q.0, q.1) && holds(region, q)
            && !w.subrange(0, k + 1).contains(q) implies turn_key(w[k - 1], w[k], w[k + 1])
        <= #[trigger] turn_key(w[k - 1], w[k], q) by {
        let pre = w.subrange(0, k + 1);
        assert(next_step(r, region, pre) == Some(w[k + 1]));
        let cur = pre.last();
        assert(cur == w[k]);
        assert(pre[pre.len() - 2] == w[k - 1]);
        let cands = open_neighbors_upto(r, region, pre, cur, 8);
        lemma_adjacent_has_offset(cur, q);
        let j = choose|j: int|
            0 <= j < 8 && q == (cur.0 + #[trigger] neighbor_offset(j).0, cur.1 + neighbor_offset(j).1);
        lemma_open_neighbors_complete(r, region, pre, cur, 8, j);
        let i = choose|i: int| 0 <= i < cands.len() && cands[i] == q;
        if cands.len() == 1 {
            assert(w[k + 1] == cands[0]);
        } else {
            lemma_straightest_is_minimal(cands, w[k - 1], cur, cands.len() as int);
            assert(turn_key(w[k - 1], cur, cands[i]) == turn_key(w[k - 1], w[k], q));
        }
    }
}

/// The walk over the largest of the components listed in `found`.
pub open spec fn contour_of(r: Raster, found: Seq<Seq<(u32, u32)>>) -> Seq<(int, int)> {
    let ordered = sort_by_len_desc(found);
    if ordered.len() == 0 {
        seq![]
    } else {
        region_walk(r, ordered[0])
    }
}

/// The pixels of the largest component.
fn find_largest_component(image: &GrayImage) -> (largest: Vec<(u32, u32)>)
    requires
        image.wf(),
    ensures
        exists|found: Seq<Seq<(u32, u32)>>|
            scanned_as(image@, found) && ({
                let ordered = sort_by_len_desc(found);
                if ordered.len() == 0 {
                    largest@.len() == 0
                } else {
                    largest@ == ordered[0]
                }
            }),
{
    let selection = find_all_components_raw(image);
    selection.largest
}

/// The index of the first pixel of `region` with exactly one non-black neighbour.
fn first_endpoint_index(image: &GrayImage, region: &Vec<(u32, u32)>) -> (idx: Option<usize>)
    requires
        image.wf(),
    ensures
        match idx {
            Some(k) => first_end_from(image@, region@, 0) == Some(k as int),
            None => first_end_from(image@, region@, 0) is None,
        },
{
    let mut k: usize = 0;
    while k < region.len()
        invariant
            k <= region@.len(),
            image.wf(),
            first_end_from(image@, region@, 0) == first_end_from(image@, region@, k as int),
        decreases region@.len() - k,
    {
        let (x, y) = region[k];
        if count_neighbors_on_image(image, x, y) == 1 {
            return Some(k);
        }
        k = k + 1;
    }
    None
}

/// Walks the largest component of the image into an ordered contour: from its
/// first stroke end (or its first pixel), always to an unvisited neighbouring pixel
/// of the component, preferring the straightest continuation, until none is left.
pub fn walk_contour(image: &GrayImage) -> (path: Vec<(i32, i32)>)
    requires
        image.wf(),
    ensures
        exists|found: Seq<Seq<(u32, u32)>>|
            scanned_as(image@, found) && ipts(path@) == contour_of(image@, found),
        forall|k: int|
            0 <= k < path@.len() ==> image@.in_bounds((#[trigger] path@[k]).0 as int, path@[k].1 as int),
{
    let largest = find_largest_component(image);
    let ghost r = image@;
    let ghost found = choose|found: Seq<Seq<(u32, u32)>>|
        scanned_as(image@, found) && ({
            let ordered = sort_by_len_desc(found);
            if ordered.len() == 0 {
                largest@.len() == 0
            } else {
                largest@ == ordered[0]
            }
        });

    if largest.len() == 0 {
        let path: Vec<(i32, i32)> = Vec::new();
        proof {
            assert(ipts(path@) =~= contour_of(r, found));
        }
        return path;
    }
    proof {
        image.lemma_valid();
        lemma_region_in_bounds(r, found);
    }
    let ghost region = largest@;
    proof {
        assert(region == sort_by_len_desc(found)[0]);
    }

    let (width, height) = image.dimensions();
    let mut pixel_set = PixelSet::for_image(image);
    let mut i: usize = 0;
    while i < largest.len()
        invariant
            i <= largest@.len(),
            region == largest@,
            pixel_set.fits(r),
            forall|k: int| 0 <= k < region.len() ==> r.in_bounds(pos(#[trigger] region[k]).0, pos(region[k]).1),
            forall|p: (int, int)| #[trigger] pixel_set@.contains(p) <==> holds(region.subrange(0, i as int), p),
        decreases largest@.len() - i,
    {
        let (x, y) = largest[i];
        proof {
            assert(r.in_bounds(pos(region[i as int]).0, pos(region[i as int]).1));
        }
        pixel_set.insert(x, y);
        proof {
            assert forall|p: (int, int)| #[trigger] pixel_set@.contains(p) <==> holds(region.subrange(0, i + 1), p) by {
                let pre = region.subrange(0, i as int);
                let post = region.subrange(0, i + 1);
                if holds(pre, p) {
                    let k = choose|k: int| 0 <= k < pre.len() && #[trigger] pos(pre[k]) == p;
                    assert(pos(post[k]) == p);
                }
                if holds(post, p) {
                    let k = choose|k: int| 0 <= k < post.len() && #[trigger] pos(post[k]) == p;
                    if k < i {
                        assert(pos(pre[k]) == p);
                    }
                }
                if p == pos(region[i as int]) {
                    assert(pos(post[i as int]) == p);
                }
            }
        }
        i = i + 1;
    }
    proof {
        assert(region.subrange(0, i as int) =~= region);
    }

    let start_idx = first_endpoint_index(image, &largest);
    proof {
        lemma_first_end_in_range(r, region, 0);
    }
    let start: (u32, u32) = match start_idx {
        Some(k) => largest[k],
        None => largest[0],
    };
    proof {
        assert(pos(start) == walk_start(r, region));
        assert(pos(start) == pos(region[match start_idx {
            Some(k) => k as int,
            None => 0,
        }]));
        let single = seq![pos(start)];
        assert(ipts(Seq::<(i32, i32)>::empty()).push(pos(start)) =~= single);
        assert(holds(region, single[0]));
    }

    let mut path: Vec<(i32, i32)> = Vec::new();
    let mut visited = PixelSet::for_image(image);
    let mut current = start;
    let ghost goal = walk_from(r, region, seq![pos(start)]);

    loop
        invariant_except_break
            walkable(region, ipts(path@).push(pos(current))),
            walk_from(r, region, ipts(path@).push(pos(current))) == goal,
        invariant
            width == r.width,
            height == r.height,
            r == image@,
            r.valid(),
            image.wf(),
            region == largest@,
            pixel_set.fits(r),
            visited.fits(r),
            forall|p: (int, int)| #[trigger] pixel_set@.contains(p) <==> holds(region, p),
            forall|k: int| 0 <= k < region.len() ==> r.in_bounds(pos(#[trigger] region[k]).0, pos(region[k]).1),
            forall|p: (int, int)| #[trigger] visited@.contains(p) <==> ipts(path@).contains(p),
            forall|k: int|
                0 <= k < path@.len() ==> r.in_bounds((#[trigger] path@[k]).0 as int, path@[k].1 as int),
        ensures
            ipts(path@) == goal,
        decreases region.len() - path@.len(),
    {
        let ghost cur = pos(current);
        let ghost p_before = ipts(path@);
        proof {
            assert(holds(region, p_before.push(cur)[path@.len() as int]));
            lemma_walk_bounded(region, p_before.push(cur));
            let j = choose|j: int| 0 <= j < region.len() && #[trigger] pos(region[j]) == cur;
            assert(r.in_bounds(pos(region[j]).0, pos(region[j]).1));
        }
        let ghost vis_before = visited@;
        visited.insert(current.0, current.1);
        path.push((current.0 as i32, current.1 as i32));
        let ghost p_now = ipts(path@);
        proof {
            assert(p_now =~= p_before.push(cur));
            assert forall|kk: int| 0 <= kk < path@.len() implies r.in_bounds((#[trigger] path@[kk]).0 as int, path@[kk].1 as int) by {
                if kk == path@.len() - 1 {
                    assert(path@[kk] == (current.0 as i32, current.1 as i32));
                }
            }
            assert forall|p: (int, int)| #[trigger] visited@.contains(p) <==> p_now.contains(p) by {
                if p == cur {
                    assert(p_now[p_now.len() - 1] == cur);
                } else {
                    assert(visited@.contains(p) == vis_before.contains(p));
                    assert(vis_before.contains(p) == p_before.contains(p));
                    if p_before.contains(p) {
                        let k = choose|k: int| 0 <= k < p_before.len() && p_before[k] == p;
                        assert(p_now[k] == p);
                    }
                    if p_now.contains(p) {
                        let k = choose|k: int| 0 <= k < p_now.len() && p_now[k] == p;
                        assert(k < p_before.len());
                        assert(p_before[k] == p);
                    }
                }
            }
        }

        let mut unvisited: Vec<(u32, u32)> = Vec::new();
        let mut k: usize = 0;
        while k < 8
            invariant
                k <= 8,
                width == r.width,
                height == r.height,
                r.valid(),
                pixel_set.fits(r),
                visited.fits(r),
                forall|p: (int, int)| #[trigger] pixel_set@.contains(p) <==> holds(region, p),
                forall|p: (int, int)| #[trigger] visited@.contains(p) <==> p_now.contains(p),
                cur == pos(current),
                current.0 < r.width,
                current.1 < r.height,
                unvisited@.map_values(|q: (u32, u32)| pos(q)) == open_neighbors_upto(r, region, p_now, cur, k as int),
            decreases 8 - k,
        {
            let d = neighbor(k);
            let nx: i64 = current.0 as i64 + d.0 as i64;
            let ny: i64 = current.1 as i64 + d.1 as i64;
            let ghost q = (cur.0 + neighbor_offset(k as int).0, cur.1 + neighbor_offset(k as int).1);
            let ghost before = unvisited@;
            if nx >= 0 && nx < width as i64 && ny >= 0 && ny < height as i64 {
                let qx = nx as u32;
                let qy = ny as u32;
                if pixel_set.contains(qx, qy) && !visited.contains(qx, qy) {
                    unvisited.push((qx, qy));
                }
            }
            proof {
                assert(unvisited@.map_values(|q: (u32, u32)| pos(q)) =~= open_neighbors_upto(
                    r,
                    region,
                    p_now,
                    cur,
                    k + 1,
                )) by {
                    assert(before.map_values(|q: (u32, u32)| pos(q)) == open_neighbors_upto(
                        r,
                        region,
                        p_now,
                        cur,
                        k as int,
                    ));
                }
            }
            k = k + 1;
        }
        let ghost cands = open_neighbors_upto(r, region, p_now, cur, 8);
        proof {
            assert(unvisited@.len() == cands.len());
            lemma_open_neighbors(r, region, p_now, cur, 8);
        }

        let n = unvisited.len();
        if n == 0 {
            proof {
                assert(next_step(r, region, p_now) is None);
            }
            break;
        }
        let chosen_idx: usize = if n == 1 || path.len() < 2 {
            0
        } else {
            let prev = path[path.len() - 2];
            let cx: i64 = current.0 as i64;
            let cy: i64 = current.1 as i64;
            let dir_x: i64 = cx - prev.0 as i64;
            let dir_y: i64 = cy - prev.1 as i64;
            let ghost pv = p_now[p_now.len() - 2];
            proof {
                assert(pv == (prev.0 as int, prev.1 as int));
                assert(holds(region, p_now[p_now.len() - 2]));
                let jj = choose|jj: int| 0 <= jj < region.len() && #[trigger] pos(region[jj]) == pv;
                assert(r.in_bounds(pos(region[jj]).0, pos(region[jj]).1));
            }
            proof {
                assert forall|jj: int| 0 <= jj < n implies (#[trigger] unvisited@[jj]).0 <= 0x7fff_ffff && unvisited@[jj].1 <= 0x7fff_ffff by {
                    assert(cands[jj] == pos(unvisited@[jj]));
                    assert(holds(region, cands[jj]));
                    let t = choose|t: int| 0 <= t < region.len() && #[trigger] pos(region[t]) == cands[jj];
                    assert(r.in_bounds(pos(region[t]).0, pos(region[t]).1));
                }
            }
            let mut best: usize = 0;
            let mut best_key: i64 = turn_key_exec(dir_x, dir_y, cx, cy, unvisited[0]);
            let mut j: usize = 1;
            while j < n
                invariant
                    1 <= j <= n,
                    n == unvisited@.len(),
                    n == cands.len(),
                    unvisited@.map_values(|q: (u32, u32)| pos(q)) == cands,
                    dir_x == cur.0 - pv.0,
                    dir_y == cur.1 - pv.1,
                    cx == cur.0,
                    cy == cur.1,
                    -0x7fff_ffff <= dir_x <= 0x7fff_ffff,
                    -0x7fff_ffff <= dir_y <= 0x7fff_ffff,
                    0 <= cx <= 0x7fff_ffff,
                    0 <= cy <= 0x7fff_ffff,
                    forall|jj: int| 0 <= jj < n ==> (#[trigger] unvisited@[jj]).0 <= 0x7fff_ffff && unvisited@[jj].1 <= 0x7fff_ffff,
                    best == straightest_upto(cands, pv, cur, j as int),
                    best_key == turn_key(pv, cur, cands[best as int]),
                decreases n - j,
            {
                proof {
                    lemma_straightest_in_range(cands, pv, cur, j as int);
                }
                let key = turn_key_exec(dir_x, dir_y, cx, cy, unvisited[j]);
                if key < best_key {
                    best = j;
                    best_key = key;
                }
                j = j + 1;
            }
            best
        };
        proof {
            if n >= 2 && path@.len() >= 2 {
                lemma_straightest_in_range(cands, p_now[p_now.len() - 2], cur, n as int);
            }
            assert(next_step(r, region, p_now) == Some(pos(unvisited@[chosen_idx as int])));
        }
        current = unvisited[chosen_idx];
        proof {
            lemma_next_step_walkable(r, region, p_now);
            assert(ipts(path@).push(pos(current)) == p_now.push(next_step(r, region, p_now)->0));
        }
    }
    path
}

/// `turn_key` for the step `(dir_x, dir_y)` into `(cx, cy)` and a candidate `n`.
fn turn_key_exec(dir_x: i64, dir_y: i64, cx: i64, cy: i64, n: (u32, u32)) -> (key: i64)
    requires
        -0x7fff_ffff <= dir_x <= 0x7fff_ffff,
        -0x7fff_ffff <= dir_y <= 0x7fff_ffff,
        0 <= cx <= 0x7fff_ffff,
        0 <= cy <= 0x7fff_ffff,
        n.0 <= 0x7fff_ffff,
        n.1 <= 0x7fff_ffff,
    ensures
        key == turn_key((cx - dir_x, cy - dir_y), (cx as int, cy as int), pos(n)),
{
    let ex: i64 = n.0 as i64 - cx;
    let ey: i64 = n.1 as i64 - cy;
    proof {
        assert(-0x3fff_ffff_0000_0001 <= dir_x * ex <= 0x3fff_ffff_0000_0001) by (nonlinear_arith)
            requires
                -0x7fff_ffff <= dir_x <= 0x7fff_ffff,
                -0x7fff_ffff <= ex <= 0x7fff_ffff,
        ;
        assert(-0x3fff_ffff_0000_0001 <= dir_y * ey <= 0x3fff_ffff_0000_0001) by (nonlinear_arith)
            requires
                -0x7fff_ffff <= dir_y <= 0x7fff_ffff,
                -0x7fff_ffff <= ey <= 0x7fff_ffff,
        ;
    }
    -(dir_x * ex + dir_y * ey)
}

/// Pixels of the largest component lie inside the image.
proof fn lemma_region_in_bounds(r: Raster, found: Seq<Seq<(u32, u32)>>)
    requires
        scanned_as(r, found),
        sort_by_len_desc(found).len() > 0,
    ensures
        forall|k: int|
            0 <= k < sort_by_len_desc(found)[0].len() ==> r.in_bounds(
                pos(#[trigger] sort_by_len_desc(found)[0][k]).0,
                pos(sort_by_len_desc(found)[0][k]).1,
            ),
{
    broadcast use vstd::seq_lib::group_to_multiset_ensures;

    let ordered = sort_by_len_desc(found);
    crate::stable_sort::lemma_sort_by_len_desc(found);
    assert(ordered.to_multiset().contains(ordered[0]));
    assert(found.to_multiset().contains(ordered[0]));
    let j = choose|j: int| 0 <= j < found.len() && found[j] == ordered[0];
    assert(crate::components::grown_from_first(r, found[j]));
}

} // verus!

verus! {

/// The squared bridging distance for a bridging radius, as the pipeline computes it
/// (the product taken as an `i32`).
pub open spec fn bridge_distance_sq(max_bridge_distance: u32) -> i32 {
    (max_bridge_distance * max_bridge_distance) as i32
}

pub fn squared_bridge_distance(max_bridge_distance: u32) -> (sq: i32)
    requires
        max_bridge_distance <= 65535,
    ensures
        sq == bridge_distance_sq(max_bridge_distance),
{
    proof {
        assert(max_bridge_distance * max_bridge_distance <= 65535 * 65535) by (nonlinear_arith)
            requires
                max_bridge_distance <= 65535,
        ;
    }
    let product: u32 = max_bridge_distance * max_bridge_distance;
    #[verifier::truncate]
    (product as i32)
}

/// Bridges gaps between stroke ends in place, then walks the largest component.
pub fn bridge_and_walk(image: &mut GrayImage, max_bridge_distance: u32, max_bridges: usize) -> (path:
    Vec<(i32, i32)>)
    requires
        old(image).wf(),
        max_bridge_distance <= 65535,
    ensures
        final(image).wf(),
        final(image)@ == bridged(
            old(image)@,
            bridge_distance_sq(max_bridge_distance) as int,
            max_bridges as nat,
        ).0,
        exists|found: Seq<Seq<(u32, u32)>>|
            scanned_as(final(image)@, found) && ipts(path@) == contour_of(
                final(image)@,
                found,
            ),
        forall|k: int|
            0 <= k < path@.len() ==> final(image)@.in_bounds(
                (#[trigger] path@[k]).0 as int,
                path@[k].1 as int,
            ),
{
    let max_distance_sq = squared_bridge_distance(max_bridge_distance);
    bridge_gaps(image, max_distance_sq, max_bridges);
    walk_contour(image)
}

} // verus!
