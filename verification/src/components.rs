//! 8-connected components of the non-black pixels of an image.

use vstd::prelude::*;
use std::collections::VecDeque;
use crate::raster::{
    GrayImage, PixelSet, Raster, adjacent, lemma_adjacent_has_offset, lemma_distinct_cells_bounded,
    neighbor, neighbor_offset, pos, scan_lt,
};
use crate::stable_sort::{contents, lemma_sort_by_len_desc, sort_by_len_desc, sort_by_len_desc_vec};

verus! {

/// `p` is one of the pixels of `c`.
pub open spec fn holds(c: Seq<(u32, u32)>, p: (int, int)) -> bool {
    exists|k: int| 0 <= k < c.len() && #[trigger] pos(c[k]) == p
}

/// `c` is a non-empty run of distinct non-black pixels in which every pixel after
/// the first touches an earlier one, so all of them are connected to the first.
pub open spec fn grown_from_first(r: Raster, c: Seq<(u32, u32)>) -> bool {
    &&& c.len() > 0
    &&& c.no_duplicates()
    &&& forall|k: int| 0 <= k < c.len() ==> r.is_fg(pos(#[trigger] c[k]).0, pos(c[k]).1)
    &&& forall|k: int|
        1 <= k < c.len() ==> exists|j: int| 0 <= j < k && adjacent(pos(c[j]), pos(#[trigger] c[k]))
}

/// Every non-black pixel touching a pixel of `c` lies in `s`.
pub open spec fn closed_under_touch(r: Raster, c: Seq<(u32, u32)>, s: Set<(int, int)>) -> bool {
    forall|k: int, q: (int, int)|
        0 <= k < c.len() && #[trigger] adjacent(pos(c[k]), q) && r.is_fg(q.0, q.1) ==> s.contains(
            q,
        )
}

/// The pixels of the runs in `cs`.
pub open spec fn union_of(cs: Seq<Seq<(u32, u32)>>) -> Set<(int, int)> {
    Set::new(|p: (int, int)| exists|i: int| 0 <= i < cs.len() && holds(#[trigger] cs[i], p))
}

/// `found` lists the 8-connected components of the non-black pixels of `r`, each
/// starting at its first pixel in row-major order, the components ordered by that
/// first pixel.
pub open spec fn component_partition(r: Raster, found: Seq<Seq<(u32, u32)>>) -> bool {
    &&& forall|i: int| 0 <= i < found.len() ==> grown_from_first(r, #[trigger] found[i])
    &&& forall|i: int|
        0 <= i < found.len() ==> closed_under_touch(
            r,
            #[trigger] found[i],
            Set::new(|p: (int, int)| holds(found[i], p)),
        )
    &&& forall|i: int, j: int, p: (int, int)|
        0 <= i < j < found.len() && #[trigger] holds(found[i], p) ==> !#[trigger] holds(found[j], p)
    &&& forall|x: int, y: int| r.is_fg(x, y) ==> #[trigger] union_of(found).contains((x, y))
    &&& forall|i: int, k: int|
        0 <= i < found.len() && 0 <= k < found[i].len() ==> !scan_lt(
            pos(#[trigger] found[i][k]),
            pos(found[i][0]),
        )
    &&& forall|i: int, j: int|
        0 <= i < j < found.len() ==> scan_lt(pos((#[trigger] found[i])[0]), pos((#[trigger] found[j])[0]))
}

/// The integer positions of a run of pixels.
pub open spec fn positions(c: Seq<(u32, u32)>) -> Seq<(int, int)> {
    c.map_values(|p: (u32, u32)| pos(p))
}

/// The neighbours of `p` reached by the first `k` offsets, in offset order, that
/// are non-black and not in `seen`.
pub open spec fn fresh_neighbors(r: Raster, p: (int, int), seen: Set<(int, int)>, k: int) -> Seq<
    (int, int),
>
    decreases k,
{
    if k <= 0 {
        seq![]
    } else {
        let q = (p.0 + neighbor_offset(k - 1).0, p.1 + neighbor_offset(k - 1).1);
        fresh_neighbors(r, p, seen, k - 1) + if r.is_fg(q.0, q.1) && !seen.contains(q) {
            seq![q]
        } else {
            seq![]
        }
    }
}

/// Breadth-first search for at most `fuel` steps, from `queue` with the pixels of
/// `seen` marked: the pixels in the order they leave the queue. Each pixel that
/// leaves appends its fresh neighbours to the queue and marks them.
pub open spec fn bfs_order(r: Raster, queue: Seq<(int, int)>, seen: Set<(int, int)>, fuel: nat) -> Seq<
    (int, int),
>
    decreases fuel,
{
    if fuel == 0 || queue.len() == 0 {
        seq![]
    } else {
        let p = queue[0];
        let fresh = fresh_neighbors(r, p, seen, 8);
        seq![p] + bfs_order(r, queue.drop_first() + fresh, seen + fresh.to_set(), (fuel - 1) as nat)
    }
}

/// The component of `start` in breadth-first order, the pixels of `seen` left out.
pub open spec fn bfs_component(r: Raster, start: (int, int), seen: Set<(int, int)>) -> Seq<(int, int)> {
    bfs_order(r, seq![start], seen.insert(start), (r.width * r.height) as nat)
}

proof fn lemma_offsets_distinct(j: int, k: int, p: (int, int))
    requires
        0 <= j < 8,
        0 <= k < 8,
        j != k,
    ensures
        (p.0 + neighbor_offset(j).0, p.1 + neighbor_offset(j).1) != (p.0 + neighbor_offset(k).0, p.1
            + neighbor_offset(k).1),
{
}

/// The fresh neighbours found with the first `k` offsets come from those offsets.
proof fn lemma_fresh_from_offsets(r: Raster, p: (int, int), seen: Set<(int, int)>, k: int)
    requires
        k <= 8,
    ensures
        forall|i: int|
            0 <= i < fresh_neighbors(r, p, seen, k).len() ==> exists|j: int|
                0 <= j < k && #[trigger] fresh_neighbors(r, p, seen, k)[i] == (p.0 + neighbor_offset(
                    j,
                ).0, p.1 + neighbor_offset(j).1),
    decreases k,
{
    if k > 0 {
        lemma_fresh_from_offsets(r, p, seen, k - 1);
        let pre = fresh_neighbors(r, p, seen, k - 1);
        let all = fresh_neighbors(r, p, seen, k);
        assert forall|i: int| 0 <= i < all.len() implies exists|j: int|
            0 <= j < k && #[trigger] all[i] == (p.0 + neighbor_offset(j).0, p.1 + neighbor_offset(j).1) by {
            if i < pre.len() {
                assert(all[i] == pre[i]);
                let j = choose|j: int|
                    0 <= j < k - 1 && #[trigger] pre[i] == (p.0 + neighbor_offset(j).0, p.1
                        + neighbor_offset(j).1);
                assert(all[i] == (p.0 + neighbor_offset(j).0, p.1 + neighbor_offset(j).1));
            } else {
                assert(all[i] == (p.0 + neighbor_offset(k - 1).0, p.1 + neighbor_offset(k - 1).1));
            }
        }
    }
}

/// The cell reached by offset `k` is not among the fresh neighbours of the
/// offsets before it.
proof fn lemma_fresh_excludes_later(r: Raster, p: (int, int), seen: Set<(int, int)>, k: int)
    requires
        0 <= k < 8,
    ensures
        !fresh_neighbors(r, p, seen, k).contains(
            (p.0 + neighbor_offset(k).0, p.1 + neighbor_offset(k).1),
        ),
{
    lemma_fresh_from_offsets(r, p, seen, k);
    let q = (p.0 + neighbor_offset(k).0, p.1 + neighbor_offset(k).1);
    let f = fresh_neighbors(r, p, seen, k);
    if f.contains(q) {
        let i = choose|i: int| 0 <= i < f.len() && f[i] == q;
        let j = choose|j: int|
            0 <= j < k && #[trigger] f[i] == (p.0 + neighbor_offset(j).0, p.1 + neighbor_offset(j).1);
        lemma_offsets_distinct(j, k, p);
    }
}

/// What holds while filling from `start`: the pixels taken or queued (`found`)
/// are distinct non-black pixels grown from `start`, none of them seen before,
/// exactly they are marked besides the ones seen before, and they fit the raster.
pub open spec fn fill_state(
    r: Raster,
    seen0: Set<(int, int)>,
    start: (u32, u32),
    found: Seq<(u32, u32)>,
    visited: Set<(int, int)>,
) -> bool {
    &&& found.len() > 0
    &&& found[0] == start
    &&& grown_from_first(r, found)
    &&& forall|k: int| 0 <= k < found.len() ==> !seen0.contains(pos(#[trigger] found[k]))
    &&& forall|p: (int, int)| #[trigger] visited.contains(p) <==> (seen0.contains(p) || holds(found, p))
    &&& found.len() <= r.width * r.height
}

/// Queueing a fresh non-black neighbour of a found pixel keeps the fill state.
proof fn lemma_fill_push(
    r: Raster,
    seen0: Set<(int, int)>,
    start: (u32, u32),
    found: Seq<(u32, u32)>,
    visited: Set<(int, int)>,
    q: (u32, u32),
    m: int,
)
    requires
        r.valid(),
        fill_state(r, seen0, start, found, visited),
        r.is_fg(pos(q).0, pos(q).1),
        !visited.contains(pos(q)),
        0 <= m < found.len(),
        adjacent(pos(found[m]), pos(q)),
    ensures
        fill_state(r, seen0, start, found.push(q), visited.insert(pos(q))),
{
    let after = found.push(q);
    let v2 = visited.insert(pos(q));
    assert forall|i: int| 0 <= i < after.len() implies r.is_fg(pos(#[trigger] after[i]).0, pos(after[i]).1) by {
        if i < found.len() {
            assert(after[i] == found[i]);
        }
    }
    assert forall|i: int| 1 <= i < after.len() implies exists|j: int|
        0 <= j < i && adjacent(pos(after[j]), pos(#[trigger] after[i])) by {
        if i < found.len() {
            assert(after[i] == found[i]);
            let j = choose|j: int| 0 <= j < i && adjacent(pos(found[j]), pos(#[trigger] found[i]));
            assert(after[j] == found[j]);
        } else {
            assert(after[m] == found[m]);
        }
    }
    assert forall|i: int, j: int| 0 <= i < after.len() && 0 <= j < after.len() && i != j implies after[i]
        != after[j] by {
        if i < found.len() && j < found.len() {
            assert(after[i] == found[i] && after[j] == found[j]);
        } else if i < found.len() {
            assert(after[i] == found[i]);
            assert(holds(found, pos(found[i])));
        } else if j < found.len() {
            assert(after[j] == found[j]);
            assert(holds(found, pos(found[j])));
        }
    }
    assert forall|i: int| 0 <= i < after.len() implies !seen0.contains(pos(#[trigger] after[i])) by {
        if i < found.len() {
            assert(after[i] == found[i]);
        }
    }
    assert forall|p: (int, int)| #[trigger] v2.contains(p) <==> (seen0.contains(p) || holds(after, p)) by {
        if holds(found, p) {
            let i = choose|i: int| 0 <= i < found.len() && #[trigger] pos(found[i]) == p;
            assert(pos(after[i]) == p);
        }
        if holds(after, p) && p != pos(q) {
            let i = choose|i: int| 0 <= i < after.len() && #[trigger] pos(after[i]) == p;
            assert(i < found.len());
            assert(pos(found[i]) == p);
        }
        if p == pos(q) {
            assert(pos(after[after.len() - 1]) == p);
        }
    }
    assert(after.no_duplicates());
    assert(after[0] == found[0]);
    let cells = after.map_values(|p: (u32, u32)| pos(p));
    assert forall|i: int, j: int| 0 <= i < cells.len() && 0 <= j < cells.len() && i != j implies cells[i]
        != cells[j] by {
        assert(after[i] != after[j]);
    }
    assert forall|i: int| 0 <= i < cells.len() implies 0 <= (#[trigger] cells[i]).0 < r.width && 0
        <= cells[i].1 < r.height by {
        assert(r.is_fg(pos(after[i]).0, pos(after[i]).1));
    }
    lemma_distinct_cells_bounded(cells, r.width, r.height);
}

/// One more offset of the current pixel handled: the fresh neighbours found so
/// far grow by the neighbour at offset `k` exactly when it is non-black and
/// unmarked.
proof fn lemma_fresh_step(r: Raster, p: (int, int), vstart: Set<(int, int)>, k: int, visited: Set<(int, int)>)
    requires
        0 <= k < 8,
        visited == vstart + fresh_neighbors(r, p, vstart, k).to_set(),
    ensures
        ({
            let q = (p.0 + neighbor_offset(k).0, p.1 + neighbor_offset(k).1);
            &&& (r.is_fg(q.0, q.1) && !visited.contains(q)) ==> fresh_neighbors(r, p, vstart, k + 1)
                == fresh_neighbors(r, p, vstart, k).push(q) && visited.insert(q) == vstart
                + fresh_neighbors(r, p, vstart, k + 1).to_set()
            &&& !(r.is_fg(q.0, q.1) && !visited.contains(q)) ==> fresh_neighbors(r, p, vstart, k + 1)
                == fresh_neighbors(r, p, vstart, k)
        }),
{
    let q = (p.0 + neighbor_offset(k).0, p.1 + neighbor_offset(k).1);
    let f = fresh_neighbors(r, p, vstart, k);
    lemma_fresh_excludes_later(r, p, vstart, k);
    assert(!f.to_set().contains(q));
    if r.is_fg(q.0, q.1) && !visited.contains(q) {
        assert(fresh_neighbors(r, p, vstart, k + 1) =~= f.push(q));
        assert(f.push(q).to_set() =~= f.to_set().insert(q)) by {
            assert forall|a: (int, int)| f.push(q).to_set().contains(a) <==> f.to_set().insert(q).contains(
                a,
            ) by {
                if f.push(q).contains(a) && a != q {
                    let i = choose|i: int| 0 <= i < f.push(q).len() && f.push(q)[i] == a;
                    assert(i < f.len());
                    assert(f[i] == a);
                }
                if f.contains(a) {
                    let i = choose|i: int| 0 <= i < f.len() && f[i] == a;
                    assert(f.push(q)[i] == a);
                }
                if a == q {
                    assert(f.push(q)[f.len() as int] == q);
                }
            }
        }
        assert(visited.insert(q) =~= vstart + f.push(q).to_set());
    } else {
        assert(fresh_neighbors(r, p, vstart, k + 1) =~= f);
    }
}

#[verifier::rlimit(100)]
/// Collects the component of the non-black pixel `(start_x, start_y)` breadth
/// first, marking each pixel in `visited` as it is reached.
pub fn flood_fill(image: &GrayImage, start_x: u32, start_y: u32, visited: &mut PixelSet) -> (pixels:
    Vec<(u32, u32)>)
    requires
        image.wf(),
        old(visited).fits(image@),
        image@.is_fg(start_x as int, start_y as int),
        !old(visited)@.contains((start_x as int, start_y as int)),
    ensures
        final(visited).fits(image@),
        pixels@[0] == (start_x, start_y),
        grown_from_first(image@, pixels@),
        forall|k: int| 0 <= k < pixels@.len() ==> !old(visited)@.contains(pos(#[trigger] pixels@[k])),
        forall|p: (int, int)|
            #[trigger] final(visited)@.contains(p) <==> (old(visited)@.contains(p) || holds(
                pixels@,
                p,
            )),
        closed_under_touch(image@, pixels@, final(visited)@),
        positions(pixels@) == bfs_component(
            image@,
            (start_x as int, start_y as int),
            old(visited)@,
        ),
{
    let (width, height) = image.dimensions();
    let ghost r = image@;
    let ghost seen0 = visited@;
    let ghost start = (start_x, start_y);
    let ghost cells = r.width * r.height;
    let ghost target = bfs_component(r, pos(start), seen0);
    proof {
        image.lemma_valid();
        assert(0 <= cells) by (nonlinear_arith)
            requires
                r.width >= 0,
                r.height >= 0,
                cells == r.width * r.height,
        ;
    }
    let mut pixels: Vec<(u32, u32)> = Vec::new();
    let mut queue: VecDeque<(u32, u32)> = VecDeque::new();

    queue.push_back((start_x, start_y));
    visited.insert(start_x, start_y);
    proof {
        assert(pixels@ + queue@ =~= seq![start]);
        assert forall|p: (int, int)| #[trigger] visited@.contains(p) <==> (seen0.contains(p) || holds(
            pixels@ + queue@,
            p,
        )) by {
            if p == pos(start) {
                assert(pos((pixels@ + queue@)[0]) == p);
            }
        }
        assert(r.in_bounds(start_x as int, start_y as int));
        assert(1 <= cells) by (nonlinear_arith)
            requires
                0 <= start_x < r.width,
                0 <= start_y < r.height,
                cells == r.width * r.height,
        ;
        assert(positions(queue@) =~= seq![pos(start)]);
        assert(positions(pixels@) =~= seq![]);
        assert(visited@ == seen0.insert(pos(start)));
        assert(positions(pixels@) + bfs_order(r, positions(queue@), visited@, cells as nat) =~= target);
    }

    while queue.len() > 0
        invariant
            width == r.width,
            height == r.height,
            r == image@,
            r.valid(),
            image.wf(),
            visited.fits(r),
            cells == r.width * r.height,
            target == bfs_component(r, pos(start), seen0),
            fill_state(r, seen0, start, pixels@ + queue@, visited@),
            closed_under_touch(r, pixels@, visited@),
            positions(pixels@) + bfs_order(
                r,
                positions(queue@),
                visited@,
                (cells - pixels@.len()) as nat,
            ) == target,
        decreases 2 * (r.width * r.height - (pixels@ + queue@).len()) + queue@.len(),
    {
        let ghost found = pixels@ + queue@;
        let ghost old_queue = queue@;
        let ghost fuel = (cells - pixels@.len()) as nat;
        let (x, y) = match queue.pop_front() {
            Some(p) => p,
            None => (0, 0),
        };
        pixels.push((x, y));
        let ghost qrest = positions(queue@);
        let ghost vstart = visited@;
        let ghost cur = (x as int, y as int);
        proof {
            assert(pixels@ + queue@ =~= found);
            assert(found[pixels@.len() - 1] == (x, y));
            assert(r.is_fg(pos(found[pixels@.len() - 1]).0, pos(found[pixels@.len() - 1]).1));
            assert(fuel >= 1);
            assert(positions(old_queue)[0] == cur);
            assert(positions(old_queue).drop_first() =~= qrest);
            assert(positions(pixels@) =~= positions(pixels@.drop_last()).push(cur));
            assert(pixels@.drop_last() =~= found.subrange(0, pixels@.len() - 1));
            let fresh8 = fresh_neighbors(r, cur, vstart, 8);
            assert(bfs_order(r, positions(old_queue), vstart, fuel) == seq![cur] + bfs_order(
                r,
                qrest + fresh8,
                vstart + fresh8.to_set(),
                (fuel - 1) as nat,
            ));
            assert(positions(pixels@) + bfs_order(
                r,
                qrest + fresh8,
                vstart + fresh8.to_set(),
                (cells - pixels@.len()) as nat,
            ) =~= target);
            assert(positions(queue@) =~= qrest + fresh_neighbors(r, cur, vstart, 0));
            assert(visited@ =~= vstart + fresh_neighbors(r, cur, vstart, 0).to_set());
        }

        let mut k: usize = 0;
        while k < 8
            invariant
                0 <= k <= 8,
                width == r.width,
                height == r.height,
                r == image@,
                r.valid(),
                image.wf(),
                visited.fits(r),
                pixels@.len() > 0,
                pixels@.last() == (x, y),
                cur == (x as int, y as int),
                r.is_fg(x as int, y as int),
                fill_state(r, seen0, start, pixels@ + queue@, visited@),
                (pixels@ + queue@).len() >= found.len(),
                closed_under_touch(r, pixels@.drop_last(), visited@),
                forall|j: int|
                    0 <= j < k ==> {
                        let q = (x + neighbor_offset(j).0, y + neighbor_offset(j).1);
                        r.is_fg(q.0, q.1) ==> #[trigger] visited@.contains(
                            (x + neighbor_offset(j).0, y + neighbor_offset(j).1),
                        )
                    },
                queue@.len() + found.len() + 1 == old_queue.len() + (pixels@ + queue@).len(),
                positions(queue@) == qrest + fresh_neighbors(r, cur, vstart, k as int),
                visited@ == vstart + fresh_neighbors(r, cur, vstart, k as int).to_set(),
            decreases 8 - k,
        {
            let d = neighbor(k);
            let nx: i32 = x as i32 + d.0;
            let ny: i32 = y as i32 + d.1;
            proof {
                lemma_fresh_step(r, cur, vstart, k as int, visited@);
            }
            if nx >= 0 && nx < width as i32 && ny >= 0 && ny < height as i32 {
                let qx = nx as u32;
                let qy = ny as u32;
                if image.get_pixel(qx, qy) > 0 && !visited.contains(qx, qy) {
                    let ghost before = pixels@ + queue@;
                    let ghost seen_before = visited@;
                    let ghost queue_before = queue@;
                    visited.insert(qx, qy);
                    queue.push_back((qx, qy));
                    proof {
                        assert(pixels@ + queue@ =~= before.push((qx, qy)));
                        assert(before[pixels@.len() - 1] == (x, y));
                        lemma_fill_push(r, seen0, start, before, seen_before, (qx, qy), pixels@.len() - 1);
                        assert(positions(queue@) =~= positions(queue_before).push((qx as int, qy as int)));
                    }
                }
            }
            k = k + 1;
        }
        proof {
            let last = pixels@.len() - 1;
            assert forall|kk: int, q: (int, int)|
                0 <= kk < pixels@.len() && #[trigger] adjacent(pos(pixels@[kk]), q) && r.is_fg(
                    q.0,
                    q.1,
                ) implies visited@.contains(q) by {
                if kk < last {
                    assert(pixels@.drop_last()[kk] == pixels@[kk]);
                } else {
                    lemma_adjacent_has_offset(pos(pixels@[kk]), q);
                    let j = choose|j: int|
                        0 <= j < 8 && q == (pos(pixels@[kk]).0 + #[trigger] neighbor_offset(j).0, pos(
                            pixels@[kk],
                        ).1 + neighbor_offset(j).1);
                    assert(pixels@[kk] == (x, y));
                }
            }
        }
    }
    proof {
        assert(pixels@ + queue@ =~= pixels@);
        assert(positions(queue@) =~= seq![]);
    }
    pixels
}

/// The components met scanning the raster in row-major order from `(x, y)`, after
/// `found`: each non-black pixel not yet seen starts a new component, collected
/// breadth first from it and then marked seen.
pub open spec fn scan_components(
    r: Raster,
    x: int,
    y: int,
    seen: Set<(int, int)>,
    found: Seq<Seq<(int, int)>>,
) -> Seq<Seq<(int, int)>>
    decreases r.height - y, r.width - x + 1,
{
    if y >= r.height {
        found
    } else if x >= r.width {
        scan_components(r, 0, y + 1, seen, found)
    } else if r.is_fg(x, y) && !seen.contains((x, y)) {
        let c = bfs_component(r, (x, y), seen);
        scan_components(r, x + 1, y, seen + c.to_set(), found.push(c))
    } else {
        scan_components(r, x + 1, y, seen, found)
    }
}

/// The 8-connected components of the non-black pixels, in row-major order of
/// their first pixel, each listed breadth first from that pixel.
pub open spec fn scanned_components(r: Raster) -> Seq<Seq<(int, int)>> {
    scan_components(r, 0, 0, Set::empty(), seq![])
}

/// The integer positions of each run.
pub open spec fn component_positions(found: Seq<Seq<(u32, u32)>>) -> Seq<Seq<(int, int)>> {
    found.map_values(|c: Seq<(u32, u32)>| positions(c))
}

/// `found` lists the components of the non-black pixels of `r` as the scan
/// collects them: what they are is `component_partition`, and their order and
/// the order of their pixels are those of `scanned_components`.
pub open spec fn scanned_as(r: Raster, found: Seq<Seq<(u32, u32)>>) -> bool {
    component_partition(r, found) && component_positions(found) == scanned_components(r)
}

/// Law: the scan's components are determined by the raster: two lists that are
/// both its scanned components are equal.
pub proof fn lemma_scanned_as_unique(r: Raster, f1: Seq<Seq<(u32, u32)>>, f2: Seq<Seq<(u32, u32)>>)
    requires
        scanned_as(r, f1),
        scanned_as(r, f2),
    ensures
        f1 == f2,
{
    assert(component_positions(f1).len() == f1.len());
    assert(component_positions(f2).len() == f2.len());
    assert forall|i: int| 0 <= i < f1.len() implies f1[i] == f2[i] by {
        assert(component_positions(f1)[i] == positions(f1[i]));
        assert(component_positions(f2)[i] == positions(f2[i]));
        assert(positions(f1[i]).len() == f1[i].len());
        assert forall|k: int| 0 <= k < f1[i].len() implies f1[i][k] == f2[i][k] by {
            assert(positions(f1[i])[k] == pos(f1[i][k]));
            assert(positions(f2[i])[k] == pos(f2[i][k]));
        }
        assert(f1[i] =~= f2[i]);
    }
    assert(f1 =~= f2);
}

/// A new component at the scan position continues the scan with it recorded and
/// its pixels marked.
pub(crate) proof fn lemma_scan_takes(
    r: Raster,
    x: int,
    y: int,
    seen: Set<(int, int)>,
    seen2: Set<(int, int)>,
    found: Seq<Seq<(u32, u32)>>,
    c: Seq<(u32, u32)>,
)
    requires
        0 <= x < r.width,
        0 <= y < r.height,
        r.is_fg(x, y),
        !seen.contains((x, y)),
        positions(c) == bfs_component(r, (x, y), seen),
        forall|p: (int, int)| #[trigger] seen2.contains(p) <==> (seen.contains(p) || holds(c, p)),
    ensures
        scan_components(r, x, y, seen, component_positions(found)) == scan_components(
            r,
            x + 1,
            y,
            seen2,
            component_positions(found.push(c)),
        ),
{
    let pc = positions(c);
    assert forall|p: (int, int)| #[trigger] seen2.contains(p) <==> (seen + pc.to_set()).contains(p) by {
        if holds(c, p) {
            let k = choose|k: int| 0 <= k < c.len() && #[trigger] pos(c[k]) == p;
            assert(pc[k] == p);
        }
        if pc.contains(p) {
            let k = choose|k: int| 0 <= k < pc.len() && pc[k] == p;
            assert(pos(c[k]) == p);
        }
    }
    assert(seen2 =~= seen + pc.to_set());
    assert(component_positions(found.push(c)) =~= component_positions(found).push(pc));
}

/// The components found, the largest one and the rest.
pub struct ComponentSelection {
    pub largest: Vec<(u32, u32)>,
    pub dropped: Vec<Vec<(u32, u32)>>,
}

/// The components ordered largest first: the first is `largest` (empty when there
/// is none) and the others are `dropped`.
pub open spec fn selection_of(ordered: Seq<Seq<(u32, u32)>>, largest: Seq<(u32, u32)>, dropped: Seq<
    Seq<(u32, u32)>,
>) -> bool {
    if ordered.len() == 0 {
        largest.len() == 0 && dropped.len() == 0
    } else {
        largest == ordered[0] && dropped == ordered.drop_first()
    }
}

/// Law: the largest component is at least as large as every dropped one, and the
/// largest together with the dropped ones are exactly the components found.
pub proof fn lemma_selection_largest_first(
    found: Seq<Seq<(u32, u32)>>,
    largest: Seq<(u32, u32)>,
    dropped: Seq<Seq<(u32, u32)>>,
)
    requires
        selection_of(sort_by_len_desc(found), largest, dropped),
    ensures
        forall|i: int| 0 <= i < dropped.len() ==> #[trigger] dropped[i].len() <= largest.len(),
        found.len() > 0 ==> (seq![largest] + dropped).to_multiset() == found.to_multiset(),
        found.len() == 0 ==> largest.len() == 0 && dropped.len() == 0,
{
    let ordered = sort_by_len_desc(found);
    lemma_sort_by_len_desc(found);
    if ordered.len() > 0 {
        assert forall|i: int| 0 <= i < dropped.len() implies #[trigger] dropped[i].len() <= largest.len() by {
            assert(dropped[i] == ordered[i + 1]);
            assert(ordered[0].len() >= ordered[i + 1].len());
        }
        assert(seq![largest] + dropped =~= ordered);
    }
}

/// Finds every 8-connected component of the non-black pixels, and returns them
/// ordered by size, largest first (components of equal size in row-major order of
/// their first pixel), the largest apart from the others.
pub fn find_all_components_raw(image: &GrayImage) -> (selection: ComponentSelection)
    requires
        image.wf(),
    ensures
        exists|found: Seq<Seq<(u32, u32)>>|
            scanned_as(image@, found) && selection_of(
                sort_by_len_desc(found),
                selection.largest@,
                contents(selection.dropped@),
            ),
{
    let (width, height) = image.dimensions();
    let ghost r = image@;
    proof {
        image.lemma_valid();
    }
    let mut visited = PixelSet::for_image(image);
    let mut all_components: Vec<Vec<(u32, u32)>> = Vec::new();
    proof {
        assert(component_positions(contents(all_components@)) =~= seq![]);
    }

    let mut y: u32 = 0;
    while y < height
        invariant
            width == r.width,
            height == r.height,
            r == image@,
            r.valid(),
            image.wf(),
            visited.fits(r),
            y <= height,
            scan_invariant(r, contents(all_components@), visited@, 0, y as int),
            scan_components(r, 0, y as int, visited@, component_positions(contents(all_components@)))
                == scanned_components(r),
        decreases height - y,
    {
        let mut x: u32 = 0;
        while x < width
            invariant
                width == r.width,
                height == r.height,
                r == image@,
                r.valid(),
                image.wf(),
                visited.fits(r),
                y < height,
                x <= width,
                scan_invariant(r, contents(all_components@), visited@, x as int, y as int),
                scan_components(
                    r,
                    x as int,
                    y as int,
                    visited@,
                    component_positions(contents(all_components@)),
                ) == scanned_components(r),
            decreases width - x,
        {
            if image.get_pixel(x, y) > 0 && !visited.contains(x, y) {
                let ghost seen = visited@;
                let ghost found = contents(all_components@);
                let component = flood_fill(image, x, y, &mut visited);
                let ghost c = component@;
                all_components.push(component);
                proof {
                    assert(contents(all_components@) =~= found.push(c));
                    lemma_scan_step_new(r, found, c, seen, visited@, x as int, y as int);
                    lemma_scan_takes(r, x as int, y as int, seen, visited@, found, c);
                }
            } else {
                proof {
                    lemma_scan_step_skip(
                        r,
                        contents(all_components@),
                        visited@,
                        x as int,
                        y as int,
                    );
                }
            }
            x = x + 1;
        }
        proof {
            lemma_scan_next_row(r, contents(all_components@), visited@, x as int, y as int);
            assert(scan_components(
                r,
                x as int,
                y as int,
                visited@,
                component_positions(contents(all_components@)),
            ) == scan_components(
                r,
                0,
                y + 1,
                visited@,
                component_positions(contents(all_components@)),
            ));
        }
        y = y + 1;
    }
    let ghost found = contents(all_components@);
    proof {
        lemma_scan_done(r, found, visited@, y as int);
        assert(component_positions(found) == scanned_components(r));
        assert(scanned_as(r, found));
    }

    let mut sorted = sort_by_len_desc_vec(all_components);
    let ghost ordered = contents(sorted@);
    if sorted.len() == 0 {
        return ComponentSelection { largest: Vec::new(), dropped: Vec::new() };
    }
    let largest = sorted.remove(0);
    proof {
        assert(largest@ == ordered[0]);
        assert forall|i: int| 0 <= i < sorted@.len() implies contents(sorted@)[i] == ordered.drop_first()[i] by {
        }
        assert(contents(sorted@) =~= ordered.drop_first());
    }
    ComponentSelection { largest, dropped: sorted }
}

/// What holds while scanning, up to row-major position `(x, y)`.
pub open spec fn scan_invariant(
    r: Raster,
    found: Seq<Seq<(u32, u32)>>,
    seen: Set<(int, int)>,
    x: int,
    y: int,
) -> bool {
    &&& forall|i: int| 0 <= i < found.len() ==> grown_from_first(r, #[trigger] found[i])
    &&& forall|i: int|
        0 <= i < found.len() ==> closed_under_touch(
            r,
            #[trigger] found[i],
            Set::new(|p: (int, int)| holds(found[i], p)),
        )
    &&& forall|i: int, j: int, p: (int, int)|
        0 <= i < j < found.len() && #[trigger] holds(found[i], p) ==> !#[trigger] holds(found[j], p)
    &&& forall|p: (int, int)| #[trigger] seen.contains(p) <==> union_of(found).contains(p)
    &&& forall|a: int, b: int| r.is_fg(a, b) && scan_lt((a, b), (x, y)) ==> #[trigger] seen.contains((a, b))
    &&& forall|i: int, k: int|
        0 <= i < found.len() && 0 <= k < found[i].len() ==> !scan_lt(
            pos(#[trigger] found[i][k]),
            pos(found[i][0]),
        )
    &&& forall|i: int, j: int|
        0 <= i < j < found.len() ==> scan_lt(pos((#[trigger] found[i])[0]), pos((#[trigger] found[j])[0]))
    &&& forall|i: int| 0 <= i < found.len() ==> scan_lt(pos((#[trigger] found[i])[0]), (x, y))
}

pub(crate) proof fn lemma_scan_step_skip(r: Raster, found: Seq<Seq<(u32, u32)>>, seen: Set<(int, int)>, x: int, y: int)
    requires
        scan_invariant(r, found, seen, x, y),
        !r.is_fg(x, y) || seen.contains((x, y)),
    ensures
        scan_invariant(r, found, seen, x + 1, y),
{
    assert forall|a: int, b: int| r.is_fg(a, b) && scan_lt((a, b), (x + 1, y)) implies #[trigger] seen.contains((a, b)) by {
        if !(a == x && b == y) {
            assert(scan_lt((a, b), (x, y)));
        }
    }
}

pub(crate) proof fn lemma_scan_next_row(r: Raster, found: Seq<Seq<(u32, u32)>>, seen: Set<(int, int)>, x: int, y: int)
    requires
        scan_invariant(r, found, seen, x, y),
        x >= r.width,
    ensures
        scan_invariant(r, found, seen, 0, y + 1),
{
    assert forall|a: int, b: int| r.is_fg(a, b) && scan_lt((a, b), (0, y + 1)) implies #[trigger] seen.contains((a, b)) by {
        assert(scan_lt((a, b), (x, y)));
    }
}

pub(crate) proof fn lemma_scan_done(r: Raster, found: Seq<Seq<(u32, u32)>>, seen: Set<(int, int)>, y: int)
    requires
        scan_invariant(r, found, seen, 0, y),
        y >= r.height,
    ensures
        component_partition(r, found),
{
    assert forall|a: int, b: int| r.is_fg(a, b) implies #[trigger] union_of(found).contains((a, b)) by {
        assert(scan_lt((a, b), (0, y)));
        assert(seen.contains((a, b)));
    }
}

pub(crate) proof fn lemma_scan_step_new(
    r: Raster,
    found: Seq<Seq<(u32, u32)>>,
    c: Seq<(u32, u32)>,
    seen: Set<(int, int)>,
    seen2: Set<(int, int)>,
    x: int,
    y: int,
)
    requires
        scan_invariant(r, found, seen, x, y),
        r.is_fg(x, y),
        !seen.contains((x, y)),
        pos(c[0]) == (x, y),
        grown_from_first(r, c),
        forall|k: int| 0 <= k < c.len() ==> !seen.contains(pos(#[trigger] c[k])),
        forall|p: (int, int)| #[trigger] seen2.contains(p) <==> (seen.contains(p) || holds(c, p)),
        closed_under_touch(r, c, seen2),
    ensures
        scan_invariant(r, found.push(c), seen2, x + 1, y),
{
    let nf = found.push(c);
    let n = found.len() as int;
    assert(nf[n] == c);
    assert forall|i: int| 0 <= i < nf.len() implies grown_from_first(r, #[trigger] nf[i]) by {
        if i < n {
            assert(nf[i] == found[i]);
        }
    }
    // the new component touches nothing already found
    assert forall|k: int, q: (int, int)|
        0 <= k < c.len() && #[trigger] adjacent(pos(c[k]), q) && r.is_fg(q.0, q.1) implies holds(
        c,
        q,
    ) by {
        if !holds(c, q) {
            assert(seen.contains(q));
            assert(union_of(found).contains(q));
            let i = choose|i: int| 0 <= i < found.len() && holds(#[trigger] found[i], q);
            let kk = choose|kk: int| 0 <= kk < found[i].len() && #[trigger] pos(found[i][kk]) == q;
            assert(adjacent(pos(found[i][kk]), pos(c[k])));
            assert(closed_under_touch(
                r,
                found[i],
                Set::new(|p: (int, int)| holds(found[i], p)),
            ));
            assert(holds(found[i], pos(c[k])));
            assert(union_of(found).contains(pos(c[k])));
        }
    }
    assert forall|i: int| 0 <= i < nf.len() implies closed_under_touch(
        r,
        #[trigger] nf[i],
        Set::new(|p: (int, int)| holds(nf[i], p)),
    ) by {
        if i < n {
            assert(nf[i] == found[i]);
        }
    }
    assert forall|i: int, j: int, p: (int, int)|
        0 <= i < j < nf.len() && #[trigger] holds(nf[i], p) implies !#[trigger] holds(nf[j], p) by {
        if j < n {
            assert(nf[i] == found[i] && nf[j] == found[j]);
        } else {
            assert(nf[i] == found[i]);
            assert(union_of(found).contains(p));
            assert(seen.contains(p));
            if holds(c, p) {
                let k = choose|k: int| 0 <= k < c.len() && #[trigger] pos(c[k]) == p;
            }
        }
    }
    assert forall|p: (int, int)| #[trigger] seen2.contains(p) <==> union_of(nf).contains(p) by {
        if union_of(found).contains(p) {
            let i = choose|i: int| 0 <= i < found.len() && holds(#[trigger] found[i], p);
            assert(nf[i] == found[i]);
        }
        if holds(c, p) {
            assert(holds(nf[n], p));
        }
        if union_of(nf).contains(p) {
            let i = choose|i: int| 0 <= i < nf.len() && holds(#[trigger] nf[i], p);
            if i < n {
                assert(nf[i] == found[i]);
                assert(union_of(found).contains(p));
            }
        }
    }
    assert forall|a: int, b: int| r.is_fg(a, b) && scan_lt((a, b), (x + 1, y)) implies #[trigger] seen2.contains((a, b)) by {
        if !(a == x && b == y) {
            assert(scan_lt((a, b), (x, y)));
        } else {
            assert(holds(c, (a, b)));
        }
    }
    assert forall|i: int, k: int| 0 <= i < nf.len() && 0 <= k < nf[i].len() implies !scan_lt(
        pos(#[trigger] nf[i][k]),
        pos(nf[i][0]),
    ) by {
        if i < n {
            assert(nf[i] == found[i]);
        } else {
            let p = pos(c[k]);
            assert(r.is_fg(p.0, p.1));
            if scan_lt(p, (x, y)) {
                assert(seen.contains(p));
            }
        }
    }
    assert forall|i: int, j: int| 0 <= i < j < nf.len() implies scan_lt(pos((#[trigger] nf[i])[0]), pos((#[trigger] nf[j])[0])) by {
        assert(nf[i] == found[i]);
        if j < n {
            assert(nf[j] == found[j]);
        }
    }
    assert forall|i: int| 0 <= i < nf.len() implies scan_lt(pos((#[trigger] nf[i])[0]), (x + 1, y)) by {
        if i < n {
            assert(nf[i] == found[i]);
            assert(scan_lt(pos(found[i][0]), (x, y)));
        }
    }
}

} // verus!
