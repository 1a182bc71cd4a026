//! Stable ordering of sequences by length, longest first.

use vstd::prelude::*;

verus! {

/// Inserts `c` after every sequence at least as long as it, before the first shorter one.
pub open spec fn insert_by_len<T>(s: Seq<Seq<T>>, c: Seq<T>) -> Seq<Seq<T>>
    decreases s.len(),
{
    if s.len() == 0 {
        seq![c]
    } else if s[0].len() < c.len() {
        seq![c] + s
    } else {
        seq![s[0]] + insert_by_len(s.drop_first(), c)
    }
}

/// The sequences ordered by length, longest first; sequences of equal length keep
/// their relative order (a stable sort).
pub open spec fn sort_by_len_desc<T>(s: Seq<Seq<T>>) -> Seq<Seq<T>>
    decreases s.len(),
{
    if s.len() == 0 {
        s
    } else {
        insert_by_len(sort_by_len_desc(s.drop_last()), s.last())
    }
}

pub open spec fn sorted_by_len_desc<T>(s: Seq<Seq<T>>) -> bool {
    forall|i: int, j: int| 0 <= i < j < s.len() ==> #[trigger] s[i].len() >= #[trigger] s[j].len()
}

pub proof fn lemma_insert_by_len_at<T>(s: Seq<Seq<T>>, c: Seq<T>, p: int)
    requires
        0 <= p <= s.len(),
        forall|j: int| 0 <= j < p ==> s[j].len() >= c.len(),
        p < s.len() ==> s[p].len() < c.len(),
    ensures
        insert_by_len(s, c) == s.insert(p, c),
    decreases s.len(),
{
    if s.len() == 0 {
        assert(s.insert(p, c) =~= seq![c]);
    } else if p == 0 {
        assert(s.insert(p, c) =~= seq![c] + s);
    } else {
        let t = s.drop_first();
        assert forall|j: int| 0 <= j < p - 1 implies t[j].len() >= c.len() by {
            assert(t[j] == s[j + 1]);
        }
        lemma_insert_by_len_at(t, c, p - 1);
        assert(s.insert(p, c) =~= seq![s[0]] + t.insert(p - 1, c));
    }
}

/// Inserting into a sorted list keeps it sorted and adds exactly the one sequence.
pub proof fn lemma_insert_by_len_sorted<T>(s: Seq<Seq<T>>, c: Seq<T>)
    requires
        sorted_by_len_desc(s),
    ensures
        sorted_by_len_desc(insert_by_len(s, c)),
        insert_by_len(s, c).to_multiset() == s.to_multiset().insert(c),
        insert_by_len(s, c).len() == s.len() + 1,
    decreases s.len(),
{
    broadcast use vstd::seq_lib::group_to_multiset_ensures;

    if s.len() == 0 {
        assert(insert_by_len(s, c) =~= s.push(c));
    } else if s[0].len() < c.len() {
        let r = seq![c] + s;
        assert(r =~= s.insert(0, c));
        assert forall|i: int, j: int| 0 <= i < j < r.len() implies #[trigger] r[i].len()
            >= #[trigger] r[j].len() by {
            if i > 0 {
                assert(r[i] == s[i - 1] && r[j] == s[j - 1]);
            } else {
                assert(r[j] == s[j - 1]);
                assert(s[0].len() >= s[j - 1].len());
            }
        }
    } else {
        let t = s.drop_first();
        assert forall|i: int, j: int| 0 <= i < j < t.len() implies #[trigger] t[i].len()
            >= #[trigger] t[j].len() by {
            assert(t[i] == s[i + 1] && t[j] == s[j + 1]);
        }
        lemma_insert_by_len_sorted(t, c);
        let rt = insert_by_len(t, c);
        let r = seq![s[0]] + rt;
        assert(r == insert_by_len(s, c));
        assert forall|i: int, j: int| 0 <= i < j < r.len() implies #[trigger] r[i].len()
            >= #[trigger] r[j].len() by {
            if i > 0 {
                assert(r[i] == rt[i - 1] && r[j] == rt[j - 1]);
            } else {
                assert(r[j] == rt[j - 1]);
                assert(rt.to_multiset().contains(rt[j - 1]));
                assert(rt.to_multiset() == t.to_multiset().insert(c));
                if rt[j - 1] != c {
                    assert(t.to_multiset().contains(rt[j - 1]));
                    let k = choose|k: int| 0 <= k < t.len() && t[k] == rt[j - 1];
                    assert(t[k] == s[k + 1]);
                }
            }
        }
        assert(s =~= seq![s[0]] + t);
        assert((seq![s[0]] + t).to_multiset() == t.to_multiset().insert(s[0])) by {
            assert(seq![s[0]] + t =~= t.insert(0, s[0]));
        }
        assert(r =~= rt.insert(0, s[0]));
    }
}

/// Law: the stable sort yields the same sequences, ordered longest first.
pub proof fn lemma_sort_by_len_desc<T>(s: Seq<Seq<T>>)
    ensures
        sorted_by_len_desc(sort_by_len_desc(s)),
        sort_by_len_desc(s).to_multiset() == s.to_multiset(),
        sort_by_len_desc(s).len() == s.len(),
    decreases s.len(),
{
    broadcast use vstd::seq_lib::group_to_multiset_ensures;

    if s.len() > 0 {
        lemma_sort_by_len_desc(s.drop_last());
        lemma_insert_by_len_sorted(sort_by_len_desc(s.drop_last()), s.last());
        assert(s =~= s.drop_last().push(s.last()));
    }
}

/// The contents of a list of vectors.
pub open spec fn contents<T>(v: Seq<Vec<T>>) -> Seq<Seq<T>> {
    v.map_values(|c: Vec<T>| c@)
}

/// Moves the vectors into a new list ordered by length, longest first, keeping the
/// given order among vectors of equal length.
pub fn sort_by_len_desc_vec<T>(items: Vec<Vec<T>>) -> (sorted: Vec<Vec<T>>)
    ensures
        contents(sorted@) == sort_by_len_desc(contents(items@)),
{
    let mut rest = items;
    let ghost input = contents(rest@);
    let mut sorted: Vec<Vec<T>> = Vec::new();
    let ghost mut k: int = 0;
    while rest.len() > 0
        invariant
            0 <= k <= input.len(),
            contents(rest@) == input.subrange(k, input.len() as int),
            rest@.len() == input.len() - k,
            contents(sorted@) == sort_by_len_desc(input.subrange(0, k)),
        decreases rest@.len(),
    {
        let ghost rest_before = rest@;
        let c = rest.remove(0);
        proof {
            assert(contents(rest_before)[0] == rest_before[0]@);
            assert(input.subrange(k, input.len() as int)[0] == input[k]);
            assert forall|i: int| 0 <= i < rest@.len() implies contents(rest@)[i] == contents(
                rest_before,
            )[i + 1] by {
                assert(rest@[i] == rest_before[i + 1]);
            }
            assert(contents(rest@) =~= input.subrange(k + 1, input.len() as int));
            assert(c@ == input[k]);
        }
        let mut p: usize = 0;
        while p < sorted.len() && sorted[p].len() >= c.len()
            invariant
                p <= sorted@.len(),
                forall|j: int| 0 <= j < p ==> sorted@[j]@.len() >= c@.len(),
            decreases sorted@.len() - p,
        {
            p = p + 1;
        }
        let ghost before = contents(sorted@);
        proof {
            assert forall|j: int| 0 <= j < p implies before[j].len() >= c@.len() by {
                assert(before[j] == sorted@[j]@);
            }
            lemma_insert_by_len_at(before, c@, p as int);
            let pre = input.subrange(0, k + 1);
            assert(pre.drop_last() =~= input.subrange(0, k));
            assert(pre.last() == input[k]);
        }
        sorted.insert(p, c);
        proof {
            assert(contents(sorted@) =~= before.insert(p as int, c@));
            k = k + 1;
        }
    }
    proof {
        assert(input.subrange(0, k) =~= input);
    }
    sorted
}

} // verus!
