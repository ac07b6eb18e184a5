//! Noisy-interval normalization.
//!
//! Raw intervals `(start, end)` in whole seconds come out of the detector.
//! Normalization drops degenerate intervals, removes consecutive
//! duplicates, drops intervals under a first minimum duration, sorts by
//! start, merges overlapping or adjacent intervals (adjacency tolerance of
//! one second), and finally drops merged intervals under a second, stricter
//! minimum duration. The two distinct thresholds are deliberate policy.

use vstd::prelude::*;

verus! {

/// An interval covers at least one second: its end lies after its start.
pub open spec fn proper(iv: (u32, u32)) -> bool {
    iv.0 < iv.1
}

/// Every interval of `s` is proper.
pub open spec fn all_proper(s: Seq<(u32, u32)>) -> bool {
    forall|i: int| #![trigger s[i]] 0 <= i < s.len() ==> proper(s[i])
}

/// Any two intervals of `s`, in order, are separated by a gap of more
/// than one second. This implies they are sorted and pairwise disjoint.
pub open spec fn separated(s: Seq<(u32, u32)>) -> bool {
    forall|i: int, j: int| #![trigger s[i], s[j]]
        0 <= i < j < s.len() ==> s[i].1 + 1 < s[j].0
}

/// Each interval is proper and each adjacent pair leaves a gap of more
/// than one second.
pub open spec fn chained(s: Seq<(u32, u32)>) -> bool {
    &&& all_proper(s)
    &&& forall|i: int| #![trigger s[i]] 0 <= i < s.len() - 1 ==> s[i].1 + 1 < s[i + 1].0
}

/// Starts never decrease from one interval to the next.
pub open spec fn starts_nondecreasing(s: Seq<(u32, u32)>) -> bool {
    forall|i: int| #![trigger s[i]] 0 <= i < s.len() - 1 ==> s[i].0 <= s[i + 1].0
}

/// A fully normalized interval set: every interval at least two seconds
/// long, in increasing order, pairwise separated by more than one second.
pub open spec fn normalized(s: Seq<(u32, u32)>) -> bool {
    &&& forall|i: int| #![trigger s[i]] 0 <= i < s.len() ==> s[i].1 - s[i].0 >= 2
    &&& separated(s)
}

/// The intervals of `s` whose end lies strictly after their start, in order.
pub open spec fn keep_proper(s: Seq<(u32, u32)>) -> Seq<(u32, u32)>
    decreases s.len(),
{
    if s.len() == 0 {
        Seq::empty()
    } else {
        let d = keep_proper(s.drop_last());
        if s.last().1 > s.last().0 {
            d.push(s.last())
        } else {
            d
        }
    }
}

/// `s` with consecutive duplicate intervals collapsed: an interval is kept
/// exactly when it is first, or differs from its predecessor in `s`.
pub open spec fn dedup_consecutive(s: Seq<(u32, u32)>) -> Seq<(u32, u32)>
    decreases s.len(),
{
    if s.len() <= 1 {
        s
    } else if s[s.len() - 1] == s[s.len() - 2] {
        dedup_consecutive(s.drop_last())
    } else {
        dedup_consecutive(s.drop_last()).push(s.last())
    }
}

/// The intervals of `s` lasting at least `min` seconds, in order.
pub open spec fn drop_shorter_than(s: Seq<(u32, u32)>, min: int) -> Seq<(u32, u32)>
    decreases s.len(),
{
    if s.len() == 0 {
        Seq::empty()
    } else {
        let d = drop_shorter_than(s.drop_last(), min);
        if s.last().1 - s.last().0 >= min {
            d.push(s.last())
        } else {
            d
        }
    }
}

/// Insert `x` into the start-sorted `s`, after any interval whose start
/// does not exceed `x`'s (so equal starts keep their relative order).
pub open spec fn insert_by_start(s: Seq<(u32, u32)>, x: (u32, u32)) -> Seq<(u32, u32)>
    decreases s.len(),
{
    if s.len() == 0 {
        seq![x]
    } else if x.0 < s.last().0 {
        insert_by_start(s.drop_last(), x).push(s.last())
    } else {
        s.push(x)
    }
}

/// Stable sort of `s` by interval start.
pub open spec fn sort_by_start(s: Seq<(u32, u32)>) -> Seq<(u32, u32)>
    decreases s.len(),
{
    if s.len() == 0 {
        Seq::empty()
    } else {
        insert_by_start(sort_by_start(s.drop_last()), s.last())
    }
}

/// Fold one interval into the running merge: coalesce it into the last
/// merged interval when it starts at most one second past that interval's
/// end, extending the end to the larger of the two; otherwise open a new
/// merged interval.
pub open spec fn merge_step(acc: Seq<(u32, u32)>, iv: (u32, u32)) -> Seq<(u32, u32)> {
    if acc.len() > 0 && iv.0 <= acc.last().1 + 1 {
        acc.update(
            acc.len() - 1,
            (acc.last().0, if acc.last().1 >= iv.1 { acc.last().1 } else { iv.1 }),
        )
    } else {
        acc.push(iv)
    }
}

/// Merge a start-sorted interval sequence left to right.
pub open spec fn merge_sorted_spec(s: Seq<(u32, u32)>) -> Seq<(u32, u32)>
    decreases s.len(),
{
    if s.len() == 0 {
        Seq::empty()
    } else {
        merge_step(merge_sorted_spec(s.drop_last()), s.last())
    }
}

/// The full normalization pipeline, in policy order.
pub open spec fn normalize_spec(s: Seq<(u32, u32)>) -> Seq<(u32, u32)> {
    drop_shorter_than(
        merge_sorted_spec(sort_by_start(drop_shorter_than(dedup_consecutive(keep_proper(s)), 1))),
        2,
    )
}

proof fn lemma_drop_short_elems(s: Seq<(u32, u32)>, min: int)
    ensures
        forall|k: int| #![trigger drop_shorter_than(s, min)[k]]
            0 <= k < drop_shorter_than(s, min).len()
                ==> drop_shorter_than(s, min)[k].1 - drop_shorter_than(s, min)[k].0 >= min,
    decreases s.len(),
{
    if s.len() > 0 {
        lemma_drop_short_elems(s.drop_last(), min);
        let d = drop_shorter_than(s.drop_last(), min);
        let r = drop_shorter_than(s, min);
        if s.last().1 - s.last().0 >= min {
            assert forall|k: int| 0 <= k < r.len() implies #[trigger] r[k].1 - r[k].0 >= min by {
                if k < d.len() {
                    assert(r[k] == d[k]);
                } else {
                    assert(r[k] == s.last());
                }
            }
        }
    }
}

proof fn lemma_insert_by_start_sorted(s: Seq<(u32, u32)>, x: (u32, u32))
    requires
        starts_nondecreasing(s),
    ensures
        starts_nondecreasing(insert_by_start(s, x)),
        insert_by_start(s, x).len() == s.len() + 1,
        insert_by_start(s, x).last() == (if s.len() > 0 && x.0 < s.last().0 {
            s.last()
        } else {
            x
        }),
    decreases s.len(),
{
    if s.len() == 0 {
    } else if x.0 < s.last().0 {
        assert(forall|i: int| #![trigger s.drop_last()[i]]
            0 <= i < s.drop_last().len() ==> s.drop_last()[i] == s[i]);
        lemma_insert_by_start_sorted(s.drop_last(), x);
        let t = insert_by_start(s.drop_last(), x);
        assert(t.last().0 <= s.last().0);
        assert(forall|i: int| #![trigger t.push(s.last())[i]]
            0 <= i < t.len() ==> t.push(s.last())[i] == t[i]);
    } else {
    }
}

proof fn lemma_insert_by_start_elems(s: Seq<(u32, u32)>, x: (u32, u32))
    ensures
        forall|k: int| #![trigger insert_by_start(s, x)[k]]
            0 <= k < insert_by_start(s, x).len()
                ==> (exists|i: int| 0 <= i < s.len() && insert_by_start(s, x)[k] == s[i])
                    || insert_by_start(s, x)[k] == x,
    decreases s.len(),
{
    if s.len() == 0 {
    } else if x.0 < s.last().0 {
        lemma_insert_by_start_elems(s.drop_last(), x);
        let t = insert_by_start(s.drop_last(), x);
        assert forall|k: int|
            0 <= k < t.push(s.last()).len() implies (exists|i: int|
            0 <= i < s.len() && #[trigger] t.push(s.last())[k] == s[i]) || t.push(s.last())[k] == x by {
            if k < t.len() {
                assert(t.push(s.last())[k] == t[k]);
                if t[k] != x {
                    let i = choose|i: int| 0 <= i < s.drop_last().len() && t[k] == s.drop_last()[i];
                    assert(s.drop_last()[i] == s[i]);
                    assert(t.push(s.last())[k] == s[i]);
                }
            } else {
                assert(t.push(s.last())[k] == s[s.len() - 1]);
            }
        }
    } else {
        assert forall|k: int|
            0 <= k < s.push(x).len() implies (exists|i: int|
            0 <= i < s.len() && #[trigger] s.push(x)[k] == s[i]) || s.push(x)[k] == x by {
            if k < s.len() {
                assert(s.push(x)[k] == s[k]);
            }
        }
    }
}

proof fn lemma_sort_elems(s: Seq<(u32, u32)>)
    requires
        all_proper(s),
    ensures
        all_proper(sort_by_start(s)),
        starts_nondecreasing(sort_by_start(s)),
    decreases s.len(),
{
    if s.len() > 0 {
        assert(forall|i: int| #![trigger s.drop_last()[i]]
            0 <= i < s.drop_last().len() ==> s.drop_last()[i] == s[i]);
        lemma_sort_elems(s.drop_last());
        let t = sort_by_start(s.drop_last());
        lemma_insert_by_start_sorted(t, s.last());
        lemma_insert_by_start_elems(t, s.last());
        let r = insert_by_start(t, s.last());
        assert forall|k: int| 0 <= k < r.len() implies proper(#[trigger] r[k]) by {
            if r[k] != s.last() {
                let i = choose|i: int| 0 <= i < t.len() && r[k] == t[i];
                assert(proper(t[i]));
            } else {
                assert(proper(s[s.len() - 1]));
            }
        }
    }
}

proof fn lemma_merge_chained(s: Seq<(u32, u32)>)
    requires
        all_proper(s),
    ensures
        chained(merge_sorted_spec(s)),
    decreases s.len(),
{
    if s.len() > 0 {
        assert(forall|i: int| #![trigger s.drop_last()[i]]
            0 <= i < s.drop_last().len() ==> s.drop_last()[i] == s[i]);
        lemma_merge_chained(s.drop_last());
        let m = merge_sorted_spec(s.drop_last());
        let iv = s.last();
        assert(proper(s[s.len() - 1]));
        if m.len() > 0 && iv.0 <= m.last().1 + 1 {
            let r = merge_step(m, iv);
            assert(r.len() == m.len());
            assert(forall|i: int| #![trigger r[i]] 0 <= i < r.len() - 1 ==> r[i] == m[i]);
            assert(proper(m[m.len() - 1]));
            assert(proper(r[r.len() - 1]));
        }
    }
}

proof fn lemma_chained_gap(s: Seq<(u32, u32)>, i: int, j: int)
    requires
        chained(s),
        0 <= i < j < s.len(),
    ensures
        s[i].1 + 1 < s[j].0,
    decreases j - i,
{
    if j == i + 1 {
    } else {
        lemma_chained_gap(s, i, j - 1);
        assert(proper(s[j - 1]));
        assert(s[j - 1].1 + 1 < s[j].0);
    }
}

proof fn lemma_chained_separated(s: Seq<(u32, u32)>)
    requires
        chained(s),
    ensures
        separated(s),
{
    assert forall|i: int, j: int| 0 <= i < j < s.len() implies #[trigger] s[i].1 + 1 < #[trigger] s[j].0 by {
        lemma_chained_gap(s, i, j);
    }
}

proof fn lemma_drop_short_separated(s: Seq<(u32, u32)>, min: int)
    requires
        separated(s),
        all_proper(s),
        min >= 1,
    ensures
        separated(drop_shorter_than(s, min)),
        all_proper(drop_shorter_than(s, min)),
        drop_shorter_than(s, min).len() > 0 ==> s.len() > 0
            && drop_shorter_than(s, min).last().1 <= s.last().1,
    decreases s.len(),
{
    if s.len() > 0 {
        assert(forall|i: int| #![trigger s.drop_last()[i]]
            0 <= i < s.drop_last().len() ==> s.drop_last()[i] == s[i]);
        lemma_drop_short_separated(s.drop_last(), min);
        let d = drop_shorter_than(s.drop_last(), min);
        if s.last().1 - s.last().0 >= min {
            let r = d.push(s.last());
            assert(proper(s[s.len() - 1]));
            assert forall|i: int, j: int| 0 <= i < j < r.len() implies #[trigger] r[i].1 + 1
                < #[trigger] r[j].0 by {
                if j < d.len() {
                    assert(r[i] == d[i] && r[j] == d[j]);
                } else {
                    // r[j] is s.last(); bound every kept end by the end of
                    // the last interval of the shorter prefix.
                    assert(r[i] == d[i]);
                    if i == d.len() - 1 {
                        assert(d.last().1 <= s.drop_last().last().1);
                        assert(s[s.len() - 2].1 + 1 < s[s.len() - 1].0);
                    } else {
                        assert(d[i].1 + 1 < d[d.len() - 1].0);
                        assert(proper(d[d.len() - 1]));
                        assert(d.last().1 <= s.drop_last().last().1);
                        assert(s[s.len() - 2].1 + 1 < s[s.len() - 1].0);
                    }
                }
            }
            assert(all_proper(r)) by {
                assert forall|i: int| 0 <= i < r.len() implies proper(#[trigger] r[i]) by {
                    if i < d.len() {
                        assert(r[i] == d[i]);
                        assert(proper(d[i]));
                    }
                }
            }
        } else {
            if d.len() > 0 {
                assert(d.last().1 <= s.drop_last().last().1);
                assert(proper(s[s.len() - 1]));
                assert(s[s.len() - 2].1 + 1 < s[s.len() - 1].0);
                assert(d.last().1 <= s.last().1);
            }
        }
    }
}

/// Every normalized result consists of intervals at least two seconds
/// long (the stricter threshold), pairwise disjoint, ordered by start,
/// with a gap of more than one second between any two of them.
pub proof fn lemma_normalize_normalized(s: Seq<(u32, u32)>)
    ensures
        normalized(normalize_spec(s)),
{
    let d = dedup_consecutive(keep_proper(s));
    let f1 = drop_shorter_than(d, 1);
    let so = sort_by_start(f1);
    let m = merge_sorted_spec(so);
    let f2 = drop_shorter_than(m, 2);
    lemma_drop_short_elems(d, 1);
    assert(all_proper(f1));
    lemma_sort_elems(f1);
    lemma_merge_chained(so);
    lemma_chained_separated(m);
    lemma_drop_short_separated(m, 2);
    lemma_drop_short_elems(m, 2);
}

proof fn lemma_keep_proper_id(s: Seq<(u32, u32)>)
    requires
        all_proper(s),
    ensures
        keep_proper(s) == s,
    decreases s.len(),
{
    if s.len() > 0 {
        assert(forall|i: int| #![trigger s.drop_last()[i]]
            0 <= i < s.drop_last().len() ==> s.drop_last()[i] == s[i]);
        lemma_keep_proper_id(s.drop_last());
        assert(proper(s[s.len() - 1]));
        assert(s.drop_last().push(s.last()) =~= s);
    }
}

proof fn lemma_dedup_id(s: Seq<(u32, u32)>)
    requires
        forall|i: int| #![trigger s[i]] 0 <= i < s.len() - 1 ==> s[i] != s[i + 1],
    ensures
        dedup_consecutive(s) == s,
    decreases s.len(),
{
    if s.len() > 1 {
        assert(forall|i: int| #![trigger s.drop_last()[i]]
            0 <= i < s.drop_last().len() ==> s.drop_last()[i] == s[i]);
        lemma_dedup_id(s.drop_last());
        assert(s[s.len() - 2] != s[s.len() - 1]);
        assert(s.drop_last().push(s.last()) =~= s);
    }
}

proof fn lemma_drop_short_id(s: Seq<(u32, u32)>, min: int)
    requires
        forall|i: int| #![trigger s[i]] 0 <= i < s.len() ==> s[i].1 - s[i].0 >= min,
    ensures
        drop_shorter_than(s, min) == s,
    decreases s.len(),
{
    if s.len() > 0 {
        assert(forall|i: int| #![trigger s.drop_last()[i]]
            0 <= i < s.drop_last().len() ==> s.drop_last()[i] == s[i]);
        lemma_drop_short_id(s.drop_last(), min);
        assert(s[s.len() - 1].1 - s[s.len() - 1].0 >= min);
        assert(s.drop_last().push(s.last()) =~= s);
    }
}

proof fn lemma_sort_id(s: Seq<(u32, u32)>)
    requires
        starts_nondecreasing(s),
    ensures
        sort_by_start(s) == s,
    decreases s.len(),
{
    if s.len() > 0 {
        assert(forall|i: int| #![trigger s.drop_last()[i]]
            0 <= i < s.drop_last().len() ==> s.drop_last()[i] == s[i]);
        lemma_sort_id(s.drop_last());
        if s.len() > 1 {
            assert(s[s.len() - 2].0 <= s[s.len() - 1].0);
        }
        assert(s.drop_last().push(s.last()) =~= s);
    }
}

proof fn lemma_merge_id(s: Seq<(u32, u32)>)
    requires
        chained(s),
    ensures
        merge_sorted_spec(s) == s,
    decreases s.len(),
{
    if s.len() > 0 {
        assert(forall|i: int| #![trigger s.drop_last()[i]]
            0 <= i < s.drop_last().len() ==> s.drop_last()[i] == s[i]);
        lemma_merge_id(s.drop_last());
        if s.len() > 1 {
            assert(s[s.len() - 2].1 + 1 < s[s.len() - 1].0);
        }
        assert(s.drop_last().push(s.last()) =~= s);
    }
}

/// Normalizing is idempotent: running the pipeline on its own output
/// returns that output unchanged.
pub proof fn lemma_normalize_idempotent(s: Seq<(u32, u32)>)
    ensures
        normalize_spec(normalize_spec(s)) == normalize_spec(s),
{
    let t = normalize_spec(s);
    lemma_normalize_normalized(s);
    assert(all_proper(t)) by {
        assert forall|i: int| 0 <= i < t.len() implies proper(#[trigger] t[i]) by {
            assert(t[i].1 - t[i].0 >= 2);
        }
    }
    assert(chained(t)) by {
        assert forall|i: int| 0 <= i < t.len() - 1 implies #[trigger] t[i].1 + 1 < t[i + 1].0 by {
            assert(t[i].1 + 1 < t[i + 1].0);
        }
    }
    lemma_keep_proper_id(t);
    assert(forall|i: int| #![trigger t[i]] 0 <= i < t.len() - 1 ==> t[i] != t[i + 1]) by {
        assert forall|i: int| 0 <= i < t.len() - 1 implies #[trigger] t[i] != t[i + 1] by {
            assert(t[i].1 + 1 < t[i + 1].0);
            assert(proper(t[i]));
        }
    }
    lemma_dedup_id(t);
    assert(forall|i: int| #![trigger t[i]] 0 <= i < t.len() ==> t[i].1 - t[i].0 >= 1);
    lemma_drop_short_id(t, 1);
    assert(starts_nondecreasing(t)) by {
        assert forall|i: int| 0 <= i < t.len() - 1 implies #[trigger] t[i].0 <= t[i + 1].0 by {
            assert(t[i].1 + 1 < t[i + 1].0);
            assert(proper(t[i]));
        }
    }
    lemma_sort_id(t);
    lemma_merge_id(t);
    assert(forall|i: int| #![trigger t[i]] 0 <= i < t.len() ==> t[i].1 - t[i].0 >= 2);
    lemma_drop_short_id(t, 2);
}

/// Keep the intervals whose end lies strictly after their start.
pub fn retain_proper(v: &Vec<(u32, u32)>) -> (r: Vec<(u32, u32)>)
    ensures
        r@ == keep_proper(v@),
{
    let mut r: Vec<(u32, u32)> = Vec::new();
    let mut i: usize = 0;
    while i < v.len()
        invariant
            i <= v.len(),
            r@ == keep_proper(v@.take(i as int)),
        decreases v.len() - i,
    {
        let iv = v[i];
        proof {
            assert(v@.take(i as int + 1).drop_last() =~= v@.take(i as int));
            assert(v@.take(i as int + 1).last() == v@[i as int]);
        }
        if iv.1 > iv.0 {
            r.push(iv);
        }
        i += 1;
    }
    proof {
        assert(v@.take(v@.len() as int) =~= v@);
    }
    r
}

/// Collapse consecutive duplicate intervals, keeping the first of each run.
pub fn dedup_intervals(v: &Vec<(u32, u32)>) -> (r: Vec<(u32, u32)>)
    ensures
        r@ == dedup_consecutive(v@),
{
    let mut r: Vec<(u32, u32)> = Vec::new();
    let mut i: usize = 0;
    while i < v.len()
        invariant
            i <= v.len(),
            r@ == dedup_consecutive(v@.take(i as int)),
        decreases v.len() - i,
    {
        let iv = v[i];
        proof {
            assert(v@.take(i as int + 1).drop_last() =~= v@.take(i as int));
            assert(v@.take(i as int + 1).last() == v@[i as int]);
            if i > 0 {
                assert(v@.take(i as int + 1)[i as int - 1] == v@[i as int - 1]);
            }
        }
        if i == 0 {
            r.push(iv);
            proof {
                assert(dedup_consecutive(v@.take(1)) == v@.take(1));
                assert(Seq::empty().push(v@[0]) =~= v@.take(1));
            }
        } else {
            let prev = v[i - 1];
            if !(iv.0 == prev.0 && iv.1 == prev.1) {
                r.push(iv);
            }
        }
        i += 1;
    }
    proof {
        assert(v@.take(v@.len() as int) =~= v@);
    }
    r
}

/// Keep the intervals lasting at least `min` seconds.
pub fn retain_min_len(v: &Vec<(u32, u32)>, min: u32) -> (r: Vec<(u32, u32)>)
    ensures
        r@ == drop_shorter_than(v@, min as int),
{
    let mut r: Vec<(u32, u32)> = Vec::new();
    let mut i: usize = 0;
    while i < v.len()
        invariant
            i <= v.len(),
            r@ == drop_shorter_than(v@.take(i as int), min as int),
        decreases v.len() - i,
    {
        let iv = v[i];
        proof {
            assert(v@.take(i as int + 1).drop_last() =~= v@.take(i as int));
            assert(v@.take(i as int + 1).last() == v@[i as int]);
        }
        if iv.1 as u64 >= iv.0 as u64 + min as u64 {
            r.push(iv);
        }
        i += 1;
    }
    proof {
        assert(v@.take(v@.len() as int) =~= v@);
    }
    r
}

proof fn lemma_nondecr_trans(s: Seq<(u32, u32)>, i: int, j: int)
    requires
        starts_nondecreasing(s),
        0 <= i <= j < s.len(),
    ensures
        s[i].0 <= s[j].0,
    decreases j - i,
{
    if i < j {
        lemma_nondecr_trans(s, i, j - 1);
        assert(s[j - 1].0 <= s[j].0);
    }
}

proof fn lemma_insert_by_start_at(s: Seq<(u32, u32)>, x: (u32, u32), p: int)
    requires
        starts_nondecreasing(s),
        0 <= p <= s.len(),
        forall|k: int| #![trigger s[k]] 0 <= k < p ==> s[k].0 <= x.0,
        forall|k: int| #![trigger s[k]] p <= k < s.len() ==> x.0 < s[k].0,
    ensures
        insert_by_start(s, x) == s.insert(p, x),
    decreases s.len(),
{
    if s.len() == 0 {
        assert(insert_by_start(s, x) =~= s.insert(0, x));
    } else if x.0 < s.last().0 {
        assert(p < s.len()) by {
            if p == s.len() {
                assert(s[s.len() - 1].0 <= x.0);
            }
        }
        assert(forall|i: int| #![trigger s.drop_last()[i]]
            0 <= i < s.drop_last().len() ==> s.drop_last()[i] == s[i]);
        lemma_insert_by_start_at(s.drop_last(), x, p);
        assert(insert_by_start(s.drop_last(), x).push(s.last()) =~= s.insert(p, x));
    } else {
        assert(p == s.len()) by {
            if p < s.len() {
                assert(x.0 < s[s.len() - 1].0) by {
                    lemma_nondecr_trans(s, p, s.len() - 1);
                    assert(x.0 < s[p].0);
                }
            }
        }
        assert(s.push(x) =~= s.insert(s.len() as int, x));
    }
}

/// Stable sort of the intervals by start second.
pub fn sort_intervals(v: &Vec<(u32, u32)>) -> (r: Vec<(u32, u32)>)
    ensures
        r@ == sort_by_start(v@),
        starts_nondecreasing(r@),
{
    let mut r: Vec<(u32, u32)> = Vec::new();
    let mut i: usize = 0;
    while i < v.len()
        invariant
            i <= v.len(),
            r@ == sort_by_start(v@.take(i as int)),
            starts_nondecreasing(r@),
        decreases v.len() - i,
    {
        let iv = v[i];
        proof {
            assert(v@.take(i as int + 1).drop_last() =~= v@.take(i as int));
            assert(v@.take(i as int + 1).last() == v@[i as int]);
        }
        let ghost r_old = r@;
        let mut p: usize = 0;
        while p < r.len() && r[p].0 <= iv.0
            invariant
                p <= r.len(),
                r@ == r_old,
                starts_nondecreasing(r@),
                forall|k: int| #![trigger r@[k]] 0 <= k < p ==> r@[k].0 <= iv.0,
            decreases r.len() - p,
        {
            p += 1;
        }
        proof {
            assert forall|k: int| p <= k < r@.len() implies iv.0 < #[trigger] r@[k].0 by {
                lemma_nondecr_trans(r@, p as int, k);
            }
            lemma_insert_by_start_at(r@, iv, p as int);
            lemma_insert_by_start_sorted(r@, iv);
        }
        r.insert(p, iv);
        i += 1;
    }
    proof {
        assert(v@.take(v@.len() as int) =~= v@);
    }
    r
}

/// Merge overlapping or adjacent intervals of a start-sorted sequence,
/// with an adjacency tolerance of one second.
pub fn merge_sorted(v: &Vec<(u32, u32)>) -> (r: Vec<(u32, u32)>)
    ensures
        r@ == merge_sorted_spec(v@),
{
    let mut r: Vec<(u32, u32)> = Vec::new();
    let mut i: usize = 0;
    while i < v.len()
        invariant
            i <= v.len(),
            r@ == merge_sorted_spec(v@.take(i as int)),
        decreases v.len() - i,
    {
        let iv = v[i];
        proof {
            assert(v@.take(i as int + 1).drop_last() =~= v@.take(i as int));
            assert(v@.take(i as int + 1).last() == v@[i as int]);
        }
        let n = r.len();
        if n > 0 && iv.0 as u64 <= r[n - 1].1 as u64 + 1 {
            let ghost r_old = r@;
            let last = r.pop().unwrap();
            let new_end = if last.1 >= iv.1 { last.1 } else { iv.1 };
            r.push((last.0, new_end));
            proof {
                assert(r@ =~= r_old.update(r_old.len() - 1, (r_old.last().0, new_end)));
            }
        } else {
            r.push(iv);
        }
        i += 1;
    }
    proof {
        assert(v@.take(v@.len() as int) =~= v@);
    }
    r
}

/// Run the whole normalization pipeline: drop degenerate intervals,
/// collapse consecutive duplicates, drop intervals under one second, sort
/// by start, merge with a one-second adjacency tolerance, and drop merged
/// intervals under two seconds.
pub fn normalize_intervals(raw: &Vec<(u32, u32)>) -> (r: Vec<(u32, u32)>)
    ensures
        r@ == normalize_spec(raw@),
        normalized(r@),
{
    let a = retain_proper(raw);
    let b = dedup_intervals(&a);
    let c = retain_min_len(&b, 1);
    let d = sort_intervals(&c);
    let e = merge_sorted(&d);
    let f = retain_min_len(&e, 2);
    proof {
        lemma_normalize_normalized(raw@);
    }
    f
}

} // verus!
