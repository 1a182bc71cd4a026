//! Chaining traced strokes into one drawing path: the strokes are taken from the
//! longest down, and from the end of the path so far the nearest stroke end is
//! joined by a straight line, the stroke reversed when its far end is nearer.

use vstd::prelude::*;
use crate::line::{extend_points, line_points};
pub use crate::line::{bresenham_line, close_contour};
pub use crate::bridging::{bridge_gaps, find_endpoints_on_image};
pub use crate::components::{ComponentSelection, find_all_components_raw};
pub use crate::walk::{bridge_and_walk, walk_contour};
pub use crate::tracing::find_all_components;
use crate::stable_sort::{
    lemma_insert_by_len_at, lemma_sort_by_len_desc, sort_by_len_desc, sorted_by_len_desc,
};

verus! {

/// How many strokes to keep and how far a joining line may reach.
#[derive(Debug, Clone, Copy)]
pub struct LinkConfig {
    /// Keep only this many of the longest strokes; `0` keeps all.
    pub max_components: usize,
    /// Stop chaining when the nearest stroke end is farther than this squared
    /// distance; `0` never stops.
    pub max_link_distance_sq: i32,
}

impl Default for LinkConfig {
    fn default() -> (config: Self)
        ensures
            config.max_components == 0,
            config.max_link_distance_sq == 0,
    {
        LinkConfig { max_components: 0, max_link_distance_sq: 0 }
    }
}

/// A stroke: an ordered run of pixel positions.
#[derive(Debug, Clone)]
pub struct Component {
    pub points: Vec<(i32, i32)>,
}

pub open spec fn sq_dist(p: (i32, i32), q: (i32, i32)) -> int {
    (p.0 - q.0) * (p.0 - q.0) + (p.1 - q.1) * (p.1 - q.1)
}

/// The point sequences of a list of strokes.
pub open spec fn paths(cs: Seq<Component>) -> Seq<Seq<(i32, i32)>> {
    cs.map_values(|c: Component| c.points@)
}

impl Component {
    /// The first point of the stroke.
    pub fn start(&self) -> (p: (i32, i32))
        requires
            self.points@.len() > 0,
        ensures
            p == self.points@[0],
    {
        self.points[0]
    }

    /// The last point of the stroke.
    pub fn end(&self) -> (p: (i32, i32))
        requires
            self.points@.len() > 0,
        ensures
            p == self.points@.last(),
    {
        self.points[self.points.len() - 1]
    }

    fn dist_to_start(&self, point: (i32, i32)) -> (d: i128)
        requires
            self.points@.len() > 0,
        ensures
            d == sq_dist(self.points@[0], point),
    {
        let start = self.start();
        let dx: i128 = start.0 as i128 - point.0 as i128;
        let dy: i128 = start.1 as i128 - point.1 as i128;
        proof {
            lemma_sq_bound(dx as int, dy as int);
        }
        dx * dx + dy * dy
    }

    fn dist_to_end(&self, point: (i32, i32)) -> (d: i128)
        requires
            self.points@.len() > 0,
        ensures
            d == sq_dist(self.points@.last(), point),
    {
        let end = self.end();
        let dx: i128 = end.0 as i128 - point.0 as i128;
        let dy: i128 = end.1 as i128 - point.1 as i128;
        proof {
            lemma_sq_bound(dx as int, dy as int);
        }
        dx * dx + dy * dy
    }

    /// The same stroke walked the other way.
    pub fn reversed(&self) -> (r: Self)
        ensures
            r.points@ == self.points@.reverse(),
    {
        let mut points: Vec<(i32, i32)> = Vec::new();
        let n = self.points.len();
        let mut i: usize = n;
        while i > 0
            invariant
                i <= n,
                n == self.points@.len(),
                points@ == self.points@.subrange(i as int, n as int).reverse(),
            decreases i,
        {
            i = i - 1;
            points.push(self.points[i]);
            proof {
                assert(self.points@.subrange(i as int, n as int).reverse() =~= self.points@.subrange(
                    i + 1,
                    n as int,
                ).reverse().push(self.points@[i as int]));
            }
        }
        proof {
            assert(self.points@.subrange(0, n as int) =~= self.points@);
        }
        Component { points }
    }
}

/// Law: reversing a stroke twice gives it back, and reversing a stroke with a
/// point swaps its start and its end.
pub proof fn lemma_reverse_twice(points: Seq<(i32, i32)>)
    ensures
        points.reverse().reverse() == points,
        points.reverse().len() == points.len(),
        points.len() > 0 ==> points.reverse()[0] == points.last() && points.reverse().last()
            == points[0],
{
    assert(points.reverse().reverse() =~= points);
}

/// Squared differences of two `i32` coordinates, and their sum, fit an `i128`.
proof fn lemma_sq_bound(dx: int, dy: int)
    requires
        -0x1_0000_0000 <= dx <= 0x1_0000_0000,
        -0x1_0000_0000 <= dy <= 0x1_0000_0000,
    ensures
        0 <= dx * dx <= 0x1_0000_0000_0000_0000,
        0 <= dy * dy <= 0x1_0000_0000_0000_0000,
        dx * dx + dy * dy <= i128::MAX,
{
    assert(0 <= dx * dx <= 0x1_0000_0000_0000_0000) by (nonlinear_arith)
        requires
            -0x1_0000_0000 <= dx <= 0x1_0000_0000,
    ;
    assert(0 <= dy * dy <= 0x1_0000_0000_0000_0000) by (nonlinear_arith)
        requires
            -0x1_0000_0000 <= dy <= 0x1_0000_0000,
    ;
}

/// Moves the strokes into a new list ordered longest first, keeping the given
/// order among strokes of equal length.
fn sort_components_by_len_desc(components: Vec<Component>) -> (sorted: Vec<Component>)
    ensures
        paths(sorted@) == sort_by_len_desc(paths(components@)),
{
    let mut rest = components;
    let ghost input = paths(rest@);
    let mut sorted: Vec<Component> = Vec::new();
    let ghost mut k: int = 0;
    while rest.len() > 0
        invariant
            0 <= k <= input.len(),
            paths(rest@) == input.subrange(k, input.len() as int),
            rest@.len() == input.len() - k,
            paths(sorted@) == sort_by_len_desc(input.subrange(0, k)),
        decreases rest@.len(),
    {
        let ghost rest_before = rest@;
        let c = rest.remove(0);
        proof {
            assert(paths(rest_before)[0] == rest_before[0].points@);
            assert(input.subrange(k, input.len() as int)[0] == input[k]);
            assert forall|i: int| 0 <= i < rest@.len() implies paths(rest@)[i] == paths(rest_before)[i + 1] by {
                assert(rest@[i] == rest_before[i + 1]);
            }
            assert(paths(rest@) =~= input.subrange(k + 1, input.len() as int));
            assert(c.points@ == input[k]);
        }
        let mut p: usize = 0;
        while p < sorted.len() && sorted[p].points.len() >= c.points.len()
            invariant
                p <= sorted@.len(),
                forall|j: int| 0 <= j < p ==> sorted@[j].points@.len() >= c.points@.len(),
            decreases sorted@.len() - p,
        {
            p = p + 1;
        }
        let ghost before = paths(sorted@);
        proof {
            assert forall|j: int| 0 <= j < p implies before[j].len() >= c.points@.len() by {
                assert(before[j] == sorted@[j].points@);
            }
            lemma_insert_by_len_at(before, c.points@, p as int);
            let pre = input.subrange(0, k + 1);
            assert(pre.drop_last() =~= input.subrange(0, k));
            assert(pre.last() == input[k]);
        }
        sorted.insert(p, c);
        proof {
            assert(paths(sorted@) =~= before.insert(p as int, c.points@));
            k = k + 1;
        }
    }
    proof {
        assert(input.subrange(0, k) =~= input);
    }
    sorted
}

// ---------------------------------------------------------------------------
// Greedy chaining.

/// The squared distance from `p` to the nearer end of `c`, and whether that is its far end.
pub open spec fn link_candidate(c: Seq<(i32, i32)>, p: (i32, i32)) -> (int, bool) {
    let ds = sq_dist(c[0], p);
    let de = sq_dist(c.last(), p);
    if ds <= de {
        (ds, false)
    } else {
        (de, true)
    }
}

/// Among the first `n` strokes, the position of the one with the nearest end to `p`;
/// the first such one when several are equally near.
pub open spec fn nearest_upto(cs: Seq<Seq<(i32, i32)>>, p: (i32, i32), n: int) -> int
    decreases n,
{
    if n <= 1 {
        0
    } else {
        let b = nearest_upto(cs, p, n - 1);
        if link_candidate(cs[n - 1], p).0 < link_candidate(cs[b], p).0 {
            n - 1
        } else {
            b
        }
    }
}

pub proof fn lemma_nearest_in_range(cs: Seq<Seq<(i32, i32)>>, p: (i32, i32), n: int)
    requires
        n >= 1,
    ensures
        0 <= nearest_upto(cs, p, n) < n,
    decreases n,
{
    if n > 1 {
        lemma_nearest_in_range(cs, p, n - 1);
    }
}

/// Law: the chosen stroke end is at least as near as every other stroke end.
pub proof fn lemma_nearest_is_minimal(cs: Seq<Seq<(i32, i32)>>, p: (i32, i32), n: int)
    requires
        n >= 1,
    ensures
        forall|j: int|
            0 <= j < n ==> link_candidate(cs[nearest_upto(cs, p, n)], p).0 <= #[trigger] link_candidate(
                cs[j],
                p,
            ).0,
    decreases n,
{
    if n > 1 {
        lemma_nearest_is_minimal(cs, p, n - 1);
    }
}

/// No stroke before the chosen one has an end as near.
proof fn lemma_nearest_is_first(cs: Seq<Seq<(i32, i32)>>, p: (i32, i32), n: int)
    requires
        n >= 1,
    ensures
        forall|j: int|
            0 <= j < nearest_upto(cs, p, n) ==> link_candidate(cs[nearest_upto(cs, p, n)], p).0
                < #[trigger] link_candidate(cs[j], p).0,
    decreases n,
{
    if n > 1 {
        lemma_nearest_is_first(cs, p, n - 1);
        lemma_nearest_is_minimal(cs, p, n - 1);
        lemma_nearest_in_range(cs, p, n - 1);
    }
}

pub open spec fn oriented(c: Seq<(i32, i32)>, reverse: bool) -> Seq<(i32, i32)> {
    if reverse {
        c.reverse()
    } else {
        c
    }
}

/// The path appended after a stroke ending at `end`: while strokes remain and the
/// nearest stroke end is close enough (`max_sq <= 0` means no limit), the joining
/// line from `end` to that stroke, the stroke (reversed when its far end was the
/// nearer), and then the same from the new end.
pub open spec fn chain_from(end: (i32, i32), rest: Seq<Seq<(i32, i32)>>, max_sq: int) -> Seq<
    (i32, i32),
>
    decreases rest.len(),
{
    if rest.len() == 0 {
        seq![]
    } else {
        let i = nearest_upto(rest, end, rest.len() as int);
        let cand = link_candidate(rest[i], end);
        if max_sq > 0 && cand.0 > max_sq {
            seq![]
        } else {
            proof {
                lemma_nearest_in_range(rest, end, rest.len() as int);
            }
            let next = oriented(rest[i], cand.1);
            line_points(end, next[0]) + next + chain_from(next.last(), rest.remove(i), max_sq)
        }
    }
}

/// The strokes that take part: the longest first, cut to `max_components` when that is set.
pub open spec fn kept_components(s: Seq<Seq<(i32, i32)>>, config: LinkConfig) -> Seq<
    Seq<(i32, i32)>,
> {
    let sorted = sort_by_len_desc(s);
    if config.max_components > 0 && sorted.len() > config.max_components {
        sorted.subrange(0, config.max_components as int)
    } else {
        sorted
    }
}

/// The linked path: nothing for no strokes, the one stroke as it is, and otherwise the
/// longest kept stroke followed by the greedy chain through the other kept ones.
pub open spec fn linked_path(s: Seq<Seq<(i32, i32)>>, config: LinkConfig) -> Seq<(i32, i32)> {
    if s.len() == 0 {
        seq![]
    } else if s.len() == 1 {
        s[0]
    } else {
        let kept = kept_components(s, config);
        kept[0] + chain_from(kept[0].last(), kept.drop_first(), config.max_link_distance_sq as int)
    }
}

/// The strokes left out by the cap on how many are kept.
pub open spec fn left_out_components(s: Seq<Seq<(i32, i32)>>, config: LinkConfig) -> Seq<
    Seq<(i32, i32)>,
> {
    sort_by_len_desc(s).subrange(kept_components(s, config).len() as int, s.len() as int)
}

/// Law: without a cap every stroke is kept, with one at most that many; the kept
/// strokes and the ones left out are together exactly the input strokes, and no
/// stroke left out is longer than a kept one.
pub proof fn lemma_kept_are_longest(s: Seq<Seq<(i32, i32)>>, config: LinkConfig)
    ensures
        config.max_components == 0 ==> kept_components(s, config).to_multiset() == s.to_multiset(),
        config.max_components > 0 ==> kept_components(s, config).len() <= config.max_components,
        kept_components(s, config).len() <= s.len(),
        (kept_components(s, config) + left_out_components(s, config)).to_multiset()
            == s.to_multiset(),
        forall|i: int, j: int|
            0 <= i < kept_components(s, config).len() && 0 <= j < left_out_components(
                s,
                config,
            ).len() ==> (#[trigger] kept_components(s, config)[i]).len() >= (
            #[trigger] left_out_components(s, config)[j]).len(),
{
    let sorted = sort_by_len_desc(s);
    lemma_sort_by_len_desc(s);
    let kept = kept_components(s, config);
    let left = left_out_components(s, config);
    assert(kept + left =~= sorted);
    assert forall|i: int, j: int| 0 <= i < kept.len() && 0 <= j < left.len() implies (
    #[trigger] kept[i]).len() >= (#[trigger] left[j]).len() by {
        assert(kept[i] == sorted[i]);
        assert(left[j] == sorted[kept.len() + j]);
    }
}

proof fn lemma_chain_covers(end: (i32, i32), rest: Seq<Seq<(i32, i32)>>, max_sq: int)
    requires
        max_sq <= 0,
    ensures
        forall|i: int, j: int|
            0 <= i < rest.len() && 0 <= j < rest[i].len() ==> chain_from(end, rest, max_sq).contains(
                #[trigger] rest[i][j],
            ),
    decreases rest.len(),
{
    if rest.len() > 0 {
        let i0 = nearest_upto(rest, end, rest.len() as int);
        lemma_nearest_in_range(rest, end, rest.len() as int);
        let cand = link_candidate(rest[i0], end);
        let next = oriented(rest[i0], cand.1);
        let sub = rest.remove(i0);
        lemma_chain_covers(next.last(), sub, max_sq);
        let line = line_points(end, next[0]);
        let tail = chain_from(next.last(), sub, max_sq);
        let chain = chain_from(end, rest, max_sq);
        assert(chain == line + next + tail);
        assert forall|i: int, j: int| 0 <= i < rest.len() && 0 <= j < rest[i].len() implies chain.contains(
            #[trigger] rest[i][j],
        ) by {
            if i == i0 {
                let k = if cand.1 {
                    rest[i0].len() - 1 - j
                } else {
                    j
                };
                assert(next[k] == rest[i][j]);
                assert(chain[line.len() + k] == next[k]);
            } else {
                let i2 = if i < i0 {
                    i
                } else {
                    i - 1
                };
                assert(sub[i2] == rest[i]);
                assert(tail.contains(sub[i2][j]));
                let k = choose|k: int| 0 <= k < tail.len() && tail[k] == sub[i2][j];
                assert(chain[line.len() + next.len() + k] == tail[k]);
            }
        }
    }
}

/// Law: when joins are not limited by distance, every point of every kept stroke
/// lies on the linked path; with no cap on the strokes either, every point of every
/// input stroke does.
pub proof fn lemma_linked_path_covers(s: Seq<Seq<(i32, i32)>>, config: LinkConfig)
    requires
        config.max_link_distance_sq <= 0,
    ensures
        forall|i: int, j: int|
            0 <= i < kept_components(s, config).len() && 0 <= j < kept_components(s, config)[i].len()
                ==> linked_path(s, config).contains(#[trigger] kept_components(s, config)[i][j]),
        config.max_components == 0 ==> forall|i: int, j: int|
            0 <= i < s.len() && 0 <= j < s[i].len() ==> linked_path(s, config).contains(
                #[trigger] s[i][j],
            ),
{
    broadcast use vstd::seq_lib::group_to_multiset_ensures;

    let sorted = sort_by_len_desc(s);
    lemma_sort_by_len_desc(s);
    let kept = kept_components(s, config);
    let path = linked_path(s, config);
    if s.len() == 1 {
        assert(sorted.to_multiset().contains(s[0]));
        assert(sorted[0] == s[0]);
        assert forall|i: int, j: int| 0 <= i < kept.len() && 0 <= j < kept[i].len() implies path.contains(
            #[trigger] kept[i][j],
        ) by {
            assert(path[j] == kept[i][j]);
        }
    } else if s.len() >= 2 {
        let tail = chain_from(kept[0].last(), kept.drop_first(), config.max_link_distance_sq as int);
        lemma_chain_covers(kept[0].last(), kept.drop_first(), config.max_link_distance_sq as int);
        assert(path == kept[0] + tail);
        assert forall|i: int, j: int| 0 <= i < kept.len() && 0 <= j < kept[i].len() implies path.contains(
            #[trigger] kept[i][j],
        ) by {
            if i == 0 {
                assert(path[j] == kept[0][j]);
            } else {
                assert(kept.drop_first()[i - 1] == kept[i]);
                assert(tail.contains(kept.drop_first()[i - 1][j]));
                let k = choose|k: int| 0 <= k < tail.len() && tail[k] == kept[i][j];
                assert(path[kept[0].len() + k] == tail[k]);
            }
        }
    }
    if config.max_components == 0 {
        assert forall|i: int, j: int| 0 <= i < s.len() && 0 <= j < s[i].len() implies path.contains(
            #[trigger] s[i][j],
        ) by {
            assert(s.to_multiset().contains(s[i]));
            assert(kept.to_multiset().contains(s[i]));
            let k = choose|k: int| 0 <= k < kept.len() && kept[k] == s[i];
            assert(kept[k][j] == s[i][j]);
        }
    }
}

/// Law: with a distance limit, when both ends of every other kept stroke are
/// farther than the limit from the end of the longest one, nothing is joined and
/// the path is the longest stroke alone.
pub proof fn lemma_far_strokes_stay_apart(s: Seq<Seq<(i32, i32)>>, config: LinkConfig)
    requires
        config.max_link_distance_sq > 0,
        s.len() >= 2,
        forall|i: int|
            1 <= i < kept_components(s, config).len() ==> sq_dist(
                (#[trigger] kept_components(s, config)[i])[0],
                kept_components(s, config)[0].last(),
            ) > config.max_link_distance_sq && sq_dist(
                kept_components(s, config)[i].last(),
                kept_components(s, config)[0].last(),
            ) > config.max_link_distance_sq,
    ensures
        linked_path(s, config) == kept_components(s, config)[0],
{
    let kept = kept_components(s, config);
    let rest = kept.drop_first();
    let end = kept[0].last();
    if rest.len() > 0 {
        let i = nearest_upto(rest, end, rest.len() as int);
        lemma_nearest_in_range(rest, end, rest.len() as int);
        assert(rest[i] == kept[i + 1]);
        assert(link_candidate(rest[i], end).0 > config.max_link_distance_sq);
    }
    assert(chain_from(end, rest, config.max_link_distance_sq as int) =~= seq![]);
    assert(kept[0] + seq![] =~= kept[0]);
}

/// Some end of some stroke of `rest` lies within squared distance `max_sq` of `p`.
pub open spec fn some_end_within(rest: Seq<Seq<(i32, i32)>>, p: (i32, i32), max_sq: int) -> bool {
    exists|k: int|
        0 <= k < rest.len() && (sq_dist((#[trigger] rest[k])[0], p) <= max_sq || sq_dist(
            rest[k].last(),
            p,
        ) <= max_sq)
}

/// Law: one step of chaining from `end`. When there is no limit (`max_sq <= 0`)
/// or some end of some remaining stroke is within the limit, a stroke is joined:
/// the chain is the line from `end` to the start of a remaining stroke, taken
/// forwards or reversed, then that stroke, then the chain from its new end through
/// the others. The stroke is entered by its nearer end, reversed only when its far
/// end is strictly nearer; that end is at least as near to `end` as both ends of
/// every remaining stroke, and strictly nearer than both ends of every stroke
/// listed before it. Otherwise (a positive limit that every end
/// exceeds) nothing is joined.
pub proof fn lemma_chain_joins_nearest_end(end: (i32, i32), rest: Seq<Seq<(i32, i32)>>, max_sq: int)
    requires
        rest.len() > 0,
        nonempty_strokes(rest),
    ensures
        max_sq <= 0 || some_end_within(rest, end, max_sq) ==> exists|i: int, rev: bool|
            0 <= i < rest.len() && chain_from(end, rest, max_sq) == line_points(
                end,
                (#[trigger] oriented(rest[i], rev))[0],
            ) + oriented(rest[i], rev) + chain_from(
                oriented(rest[i], rev).last(),
                rest.remove(i),
                max_sq,
            ) && (rev ==> oriented(rest[i], rev)[0] == rest[i].last() && sq_dist(
                rest[i].last(),
                end,
            ) < sq_dist(rest[i][0], end)) && (!rev ==> oriented(rest[i], rev)[0] == rest[i][0]
                && sq_dist(rest[i][0], end) <= sq_dist(rest[i].last(), end)) && (forall|j: int|
                0 <= j < rest.len() ==> sq_dist(oriented(rest[i], rev)[0], end) <= sq_dist(
                    (#[trigger] rest[j])[0],
                    end,
                ) && sq_dist(oriented(rest[i], rev)[0], end) <= sq_dist(rest[j].last(), end))
                && forall|j: int|
                0 <= j < i ==> sq_dist(oriented(rest[i], rev)[0], end) < sq_dist(
                    (#[trigger] rest[j])[0],
                    end,
                ) && sq_dist(oriented(rest[i], rev)[0], end) < sq_dist(rest[j].last(), end),
        !(max_sq <= 0 || some_end_within(rest, end, max_sq)) ==> chain_from(end, rest, max_sq)
            == Seq::<(i32, i32)>::empty(),
{
    let n = rest.len() as int;
    let i = nearest_upto(rest, end, n);
    lemma_nearest_in_range(rest, end, n);
    lemma_nearest_is_minimal(rest, end, n);
    let cand = link_candidate(rest[i], end);
    let next = oriented(rest[i], cand.1);
    assert(rest[i].len() > 0);
    lemma_reverse_twice(rest[i]);
    assert(sq_dist(next[0], end) == cand.0);
    assert forall|j: int| 0 <= j < rest.len() implies sq_dist(next[0], end) <= sq_dist(
        (#[trigger] rest[j])[0],
        end,
    ) && sq_dist(next[0], end) <= sq_dist(rest[j].last(), end) by {
        assert(cand.0 <= link_candidate(rest[j], end).0);
    }
    lemma_nearest_is_first(rest, end, n);
    assert forall|j: int| 0 <= j < i implies sq_dist(next[0], end) < sq_dist(
        (#[trigger] rest[j])[0],
        end,
    ) && sq_dist(next[0], end) < sq_dist(rest[j].last(), end) by {
        assert(cand.0 < link_candidate(rest[j], end).0);
    }
    if max_sq <= 0 || some_end_within(rest, end, max_sq) {
        if max_sq > 0 {
            let k = choose|k: int|
                0 <= k < rest.len() && (sq_dist((#[trigger] rest[k])[0], end) <= max_sq || sq_dist(
                    rest[k].last(),
                    end,
                ) <= max_sq);
            assert(cand.0 <= link_candidate(rest[k], end).0);
        }
        assert(chain_from(end, rest, max_sq) == line_points(end, next[0]) + next + chain_from(
            next.last(),
            rest.remove(i),
            max_sq,
        ));
    } else {
        assert(!some_end_within(rest, end, max_sq));
        if cand.0 <= max_sq {
            if cand.1 {
                assert(sq_dist(rest[i].last(), end) <= max_sq);
            } else {
                assert(sq_dist(rest[i][0], end) <= max_sq);
            }
            assert(some_end_within(rest, end, max_sq));
        }
    }
}

/// Every stroke has a point.
pub open spec fn nonempty_strokes(s: Seq<Seq<(i32, i32)>>) -> bool {
    forall|i: int| 0 <= i < s.len() ==> (#[trigger] s[i]).len() > 0
}

/// What linking needs of its input: when two or more strokes are kept, each kept
/// stroke has a point to take its ends from.
pub open spec fn linkable(s: Seq<Seq<(i32, i32)>>, config: LinkConfig) -> bool {
    s.len() >= 2 && kept_components(s, config).len() >= 2 ==> nonempty_strokes(
        kept_components(s, config),
    )
}

proof fn lemma_nonempty_remove(s: Seq<Seq<(i32, i32)>>, k: int)
    requires
        nonempty_strokes(s),
        0 <= k < s.len(),
    ensures
        nonempty_strokes(s.remove(k)),
{
    assert forall|i: int| 0 <= i < s.remove(k).len() implies (#[trigger] s.remove(k)[i]).len() > 0 by {
        if i < k {
            assert(s.remove(k)[i] == s[i]);
        } else {
            assert(s.remove(k)[i] == s[i + 1]);
        }
    }
}

/// Chains strokes with no limit on how many are kept or how far a join reaches.
pub fn link_components(components: Vec<Component>) -> (path: Vec<(i32, i32)>)
    requires
        linkable(paths(components@), LinkConfig { max_components: 0, max_link_distance_sq: 0 }),
    ensures
        path@ == linked_path(
            paths(components@),
            LinkConfig { max_components: 0, max_link_distance_sq: 0 },
        ),
{
    link_components_with_config(components, LinkConfig::default())
}

/// Chains strokes into one path: the longest stroke first, then repeatedly the
/// nearest remaining stroke end, joined by a digital line.
pub fn link_components_with_config(components: Vec<Component>, config: LinkConfig) -> (path: Vec<
    (i32, i32),
>)
    requires
        linkable(paths(components@), config),
    ensures
        path@ == linked_path(paths(components@), config),
{
    let ghost input = paths(components@);
    if components.len() == 0 {
        return Vec::new();
    }
    if components.len() == 1 {
        let mut components = components;
        let only = components.remove(0);
        proof {
            assert(only.points@ == input[0]);
        }
        return only.points;
    }

    let mut components = sort_components_by_len_desc(components);
    proof {
        lemma_sort_by_len_desc(input);
    }

    if config.max_components > 0 && components.len() > config.max_components {
        components.truncate(config.max_components);
    }
    let ghost kept = paths(components@);
    proof {
        assert(kept =~= kept_components(input, config));
    }

    let mut result: Vec<(i32, i32)> = Vec::new();
    let mut current = components.remove(0);
    proof {
        assert(current.points@ == kept[0]);
        assert(paths(components@) =~= kept.drop_first());
        if kept.len() >= 2 {
            assert(nonempty_strokes(kept));
            assert(kept[0].len() > 0);
            assert forall|i: int| 0 <= i < paths(components@).len() implies (
            #[trigger] paths(components@)[i]).len() > 0 by {
                assert(paths(components@)[i] == kept[i + 1]);
            }
        } else {
            assert(paths(components@).len() == 0);
        }
    }
    extend_points(&mut result, &current.points);
    let ghost max_sq = config.max_link_distance_sq as int;

    while components.len() > 0
        invariant_except_break
            result@ + chain_from(current.points@.last(), paths(components@), max_sq)
                == linked_path(input, config),
        invariant
            max_sq == config.max_link_distance_sq as int,
            input.len() >= 2,
            linked_path(input, config) == kept[0] + chain_from(kept[0].last(), kept.drop_first(), max_sq),
            components@.len() > 0 ==> current.points@.len() > 0,
            nonempty_strokes(paths(components@)),
        ensures
            result@ == linked_path(input, config),
        decreases components@.len(),
    {
        let current_end = current.end();
        let ghost rest = paths(components@);
        proof {
            assert(rest[0] == components@[0].points@);
        }

        proof {
            assert forall|i: int| 0 <= i < components@.len() implies #[trigger] components@[i].points@.len()
                > 0 by {
                assert(rest[i] == components@[i].points@);
            }
        }
        let d_start = components[0].dist_to_start(current_end);
        let d_end = components[0].dist_to_end(current_end);
        let mut best_idx: usize = 0;
        let mut best_dist: i128;
        let mut best_rev: bool;
        if d_start <= d_end {
            best_dist = d_start;
            best_rev = false;
        } else {
            best_dist = d_end;
            best_rev = true;
        }
        let mut j: usize = 1;
        while j < components.len()
            invariant
                1 <= j <= components@.len(),
                rest == paths(components@),
                rest.len() == components@.len(),
                forall|i: int| 0 <= i < components@.len() ==> #[trigger] components@[i].points@.len() > 0,
                best_idx == nearest_upto(rest, current_end, j as int),
                best_dist == link_candidate(rest[best_idx as int], current_end).0,
                best_rev == link_candidate(rest[best_idx as int], current_end).1,
            decreases components@.len() - j,
        {
            proof {
                lemma_nearest_in_range(rest, current_end, j as int);
                assert(rest[j as int] == components@[j as int].points@);
            }
            let ds = components[j].dist_to_start(current_end);
            let de = components[j].dist_to_end(current_end);
            let (dist, rev) = if ds <= de {
                (ds, false)
            } else {
                (de, true)
            };
            if dist < best_dist {
                best_idx = j;
                best_dist = dist;
                best_rev = rev;
            }
            j = j + 1;
        }
        proof {
            lemma_nearest_in_range(rest, current_end, rest.len() as int);
        }

        if config.max_link_distance_sq > 0 && best_dist > config.max_link_distance_sq as i128 {
            proof {
                assert(chain_from(current_end, rest, max_sq) == Seq::<(i32, i32)>::empty());
                assert(result@ + Seq::<(i32, i32)>::empty() =~= result@);
            }
            break;
        }

        let mut next_comp = components.remove(best_idx);
        proof {
            assert(next_comp.points@ == rest[best_idx as int]);
            assert(paths(components@) =~= rest.remove(best_idx as int));
        }
        if best_rev {
            next_comp = next_comp.reversed();
        }
        let ghost next = oriented(rest[best_idx as int], best_rev);
        proof {
            assert(next_comp.points@ == next);
            assert(next.len() > 0);
            if best_rev {
                assert(next[0] == rest[best_idx as int].last());
                assert(next.last() == rest[best_idx as int][0]);
            }
        }

        let connecting_points = bresenham_line(current_end, next_comp.start());
        let ghost before = result@;
        extend_points(&mut result, &connecting_points);
        extend_points(&mut result, &next_comp.points);
        proof {
            assert(chain_from(current_end, rest, max_sq) == line_points(current_end, next[0])
                + next + chain_from(next.last(), rest.remove(best_idx as int), max_sq));
            assert(result@ + chain_from(next.last(), paths(components@), max_sq) =~= before
                + chain_from(current_end, rest, max_sq));
            lemma_nonempty_remove(rest, best_idx as int);
        }
        current = next_comp;
    }
    result
}

} // verus!
