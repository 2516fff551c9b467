//! Intervals that overlap, put together.
//!
//! An interval is a pair of a start and an end, both of which belong to
//! it.  The intervals are first put in the order of their starts, those with
//! the same start in the order in which they came; then each interval that
//! starts no later than the one before it ends is put together with it.
use vstd::prelude::*;

verus! {

/// `sorted` with `x` put in after the last interval that starts no later
/// than `x`.
pub open spec fn insert_by_start(sorted: Seq<(i32, i32)>, x: (i32, i32)) -> Seq<(i32, i32)>
    decreases sorted.len(),
{
    if sorted.len() == 0 {
        seq![x]
    } else if sorted.last().0 <= x.0 {
        sorted.push(x)
    } else {
        insert_by_start(sorted.drop_last(), x).push(sorted.last())
    }
}

/// The intervals of `s` in the order of their starts; intervals with the
/// same start keep their order.
pub open spec fn sort_by_start(s: Seq<(i32, i32)>) -> Seq<(i32, i32)>
    decreases s.len(),
{
    if s.len() == 0 {
        s
    } else {
        insert_by_start(sort_by_start(s.drop_last()), s.last())
    }
}

/// The larger of two numbers.
pub open spec fn larger(a: i32, b: i32) -> i32 {
    if a >= b {
        a
    } else {
        b
    }
}

/// The intervals of `s`, taken in their order, with each that starts no
/// later than the end of what is there put together with it: the last
/// interval then reaches to the later of the two ends.
pub open spec fn merge_in_order(s: Seq<(i32, i32)>) -> Seq<(i32, i32)>
    decreases s.len(),
{
    if s.len() == 0 {
        s
    } else {
        let before = merge_in_order(s.drop_last());
        let x = s.last();
        if before.len() > 0 && x.0 <= before.last().1 {
            before.drop_last().push((before.last().0, larger(before.last().1, x.1)))
        } else {
            before.push(x)
        }
    }
}

/// The intervals of `s` with those that overlap put together.
pub open spec fn merged(s: Seq<(i32, i32)>) -> Seq<(i32, i32)> {
    merge_in_order(sort_by_start(s))
}

/// Whether each of `intervals` has a start and an end, and nothing else.
pub open spec fn are_pairs(intervals: Seq<Vec<i32>>) -> bool {
    forall|i: int| 0 <= i < intervals.len() ==> (#[trigger] intervals[i]).len() == 2
}

/// The pairs of start and end of `intervals`.
pub open spec fn pairs_of(intervals: Seq<Vec<i32>>) -> Seq<(i32, i32)> {
    Seq::new(intervals.len(), |i: int| (intervals[i][0], intervals[i][1]))
}

/// Whether the number `p` lies in one of `intervals`.
pub open spec fn covers(intervals: Seq<(i32, i32)>, p: int) -> bool {
    exists|i: int| 0 <= i < intervals.len() && (#[trigger] intervals[i]).0 <= p <= intervals[i].1
}

/// Whether the starts of `s` do not fall.
pub open spec fn starts_rise(s: Seq<(i32, i32)>) -> bool {
    forall|i: int, j: int| 0 <= i < j < s.len() ==> s[i].0 <= s[j].0
}

/// Whether each interval of `s` ends before the next one starts.
pub open spec fn are_apart(s: Seq<(i32, i32)>) -> bool {
    forall|i: int, j: int| 0 <= i && j == i + 1 && j < s.len() ==> s[i].1 < s[j].0
}

/// The pairs of start and end of `intervals`.
fn read_pairs(intervals: &Vec<Vec<i32>>) -> (pairs: Vec<(i32, i32)>)
    requires
        are_pairs(intervals@),
    ensures
        pairs@ == pairs_of(intervals@),
{
    let mut pairs: Vec<(i32, i32)> = Vec::new();
    let mut i: usize = 0;
    while i < intervals.len()
        invariant
            i <= intervals.len(),
            are_pairs(intervals@),
            pairs.len() == i,
            forall|j: int| 0 <= j < i ==> pairs[j] == (intervals[j][0], intervals[j][1]),
        decreases intervals.len() - i,
    {
        let interval: &Vec<i32> = &intervals[i];
        pairs.push((interval[0], interval[1]));
        i = i + 1;
    }
    assert(pairs@ =~= pairs_of(intervals@));
    pairs
}

/// Puts `pairs` in the order of their starts; pairs with the same start
/// keep their order.
pub fn sort_pairs(pairs: &Vec<(i32, i32)>) -> (sorted: Vec<(i32, i32)>)
    ensures
        sorted@ == sort_by_start(pairs@),
{
    let mut sorted: Vec<(i32, i32)> = Vec::new();
    let mut i: usize = 0;
    assert(pairs@.take(0) =~= Seq::<(i32, i32)>::empty());
    while i < pairs.len()
        invariant
            i <= pairs.len(),
            sorted@ == sort_by_start(pairs@.take(i as int)),
            sorted.len() == i,
        decreases pairs.len() - i,
    {
        let x: (i32, i32) = pairs[i];
        let mut place: usize = sorted.len();
        while place > 0 && sorted[place - 1].0 > x.0
            invariant
                place <= sorted.len(),
                forall|k: int| place <= k < sorted.len() ==> sorted[k].0 > x.0,
            decreases place,
        {
            place = place - 1;
        }
        proof {
            lemma_insert_place(sorted@, x, place as int);
            let next = pairs@.take(i + 1);
            assert(next.drop_last() =~= pairs@.take(i as int));
            assert(next.last() == x);
        }
        sorted.insert(place, x);
        i = i + 1;
    }
    assert(pairs@.take(i as int) =~= pairs@);
    sorted
}

/// Puts together, in the order of `pairs`, each interval with what is
/// there, where it starts no later than that ends.
pub fn merge_pairs(pairs: &Vec<(i32, i32)>) -> (merged: Vec<(i32, i32)>)
    ensures
        merged@ == merge_in_order(pairs@),
{
    let mut merged: Vec<(i32, i32)> = Vec::new();
    let mut i: usize = 0;
    assert(pairs@.take(0) =~= Seq::<(i32, i32)>::empty());
    while i < pairs.len()
        invariant
            i <= pairs.len(),
            merged@ == merge_in_order(pairs@.take(i as int)),
        decreases pairs.len() - i,
    {
        let x: (i32, i32) = pairs[i];
        proof {
            let next = pairs@.take(i + 1);
            assert(next.drop_last() =~= pairs@.take(i as int));
            assert(next.last() == x);
        }
        let count: usize = merged.len();
        if count > 0 && x.0 <= merged[count - 1].1 {
            let last: (i32, i32) = merged[count - 1];
            let end: i32 = if last.1 >= x.1 {
                last.1
            } else {
                x.1
            };
            let ghost before = merged@;
            merged[count - 1] = (last.0, end);
            assert(merged@ =~= before.drop_last().push((last.0, end)));
        } else {
            merged.push(x);
        }
        i = i + 1;
    }
    assert(pairs@.take(i as int) =~= pairs@);
    merged
}

/// The intervals of `intervals` with those that overlap put together, in
/// the order of their starts.  Each interval is a list of its start and its
/// end.
pub fn merge_intervals(intervals: Vec<Vec<i32>>) -> (result: Vec<Vec<i32>>)
    requires
        are_pairs(intervals@),
    ensures
        are_pairs(result@),
        pairs_of(result@) == merged(pairs_of(intervals@)),
        starts_rise(pairs_of(result@)),
        are_apart(pairs_of(result@)),
        forall|p: int| covers(pairs_of(result@), p) <==> covers(pairs_of(intervals@), p),
{
    let pairs: Vec<(i32, i32)> = read_pairs(&intervals);
    let sorted: Vec<(i32, i32)> = sort_pairs(&pairs);
    let merged: Vec<(i32, i32)> = merge_pairs(&sorted);
    let mut result: Vec<Vec<i32>> = Vec::new();
    let mut i: usize = 0;
    while i < merged.len()
        invariant
            i <= merged.len(),
            result.len() == i,
            forall|j: int|
                0 <= j < i ==> (#[trigger] result[j]).len() == 2 && result[j][0] == merged[j].0
                    && result[j][1] == merged[j].1,
        decreases merged.len() - i,
    {
        let pair: (i32, i32) = merged[i];
        let mut interval: Vec<i32> = Vec::new();
        interval.push(pair.0);
        interval.push(pair.1);
        result.push(interval);
        i = i + 1;
    }
    proof {
        assert(pairs_of(result@) =~= merged@);
        lemma_sort_by_start(pairs@);
        lemma_merge_in_order(sorted@);
        assert forall|p: int| covers(pairs_of(result@), p) <==> covers(
            pairs_of(intervals@),
            p,
        ) by {
            lemma_sort_keeps_cover(pairs@, p);
            lemma_merge_keeps_cover(sorted@, p);
        }
    }
    result
}

/// Where the intervals from `place` on start later than `x` and the one
/// before `place` does not, `x` is put in at `place`.
proof fn lemma_insert_place(sorted: Seq<(i32, i32)>, x: (i32, i32), place: int)
    requires
        0 <= place <= sorted.len(),
        forall|k: int| place <= k < sorted.len() ==> sorted[k].0 > x.0,
        place > 0 ==> sorted[place - 1].0 <= x.0,
    ensures
        insert_by_start(sorted, x) == sorted.insert(place, x),
    decreases sorted.len(),
{
    if sorted.len() == 0 {
        assert(sorted.insert(place, x) =~= seq![x]);
    } else if place == sorted.len() {
        assert(sorted.insert(place, x) =~= sorted.push(x));
    } else {
        lemma_insert_place(sorted.drop_last(), x, place);
        assert(sorted.insert(place, x) =~= sorted.drop_last().insert(place, x).push(
            sorted.last(),
        ));
    }
}

/// Putting an interval into a list whose starts do not fall gives a list
/// whose starts do not fall, with the same intervals and the new one.
proof fn lemma_insert_by_start(sorted: Seq<(i32, i32)>, x: (i32, i32))
    requires
        starts_rise(sorted),
    ensures
        starts_rise(insert_by_start(sorted, x)),
        insert_by_start(sorted, x).to_multiset() == sorted.to_multiset().insert(x),
        insert_by_start(sorted, x).len() == sorted.len() + 1,
        forall|p: int|
            covers(insert_by_start(sorted, x), p) <==> covers(sorted, p) || x.0 <= p <= x.1,
    decreases sorted.len(),
{
    broadcast use vstd::seq_lib::group_to_multiset_ensures;

    let result = insert_by_start(sorted, x);
    if sorted.len() == 0 {
        assert(sorted =~= Seq::<(i32, i32)>::empty());
        assert(result =~= sorted.push(x));
    } else if sorted.last().0 > x.0 {
        let shorter = sorted.drop_last();
        let inner = insert_by_start(shorter, x);
        assert(forall|i: int| 0 <= i < shorter.len() ==> shorter[i] == sorted[i]);
        lemma_insert_by_start(shorter, x);
        assert(sorted =~= shorter.push(sorted.last()));
        assert forall|i: int, j: int| 0 <= i < j < result.len() implies result[i].0
            <= result[j].0 by {
            if j == result.len() - 1 {
                // Each interval of `inner` is `x` or one of `shorter`.
                assert(inner.to_multiset().count(inner[i]) > 0);
                if inner[i] != x {
                    assert(shorter.to_multiset().count(inner[i]) > 0);
                    let k = choose|k: int| 0 <= k < shorter.len() && shorter[k] == inner[i];
                    assert(sorted[k].0 <= sorted[sorted.len() - 1].0);
                }
            }
        }
    }
    assert forall|p: int| covers(result, p) <==> covers(sorted, p) || x.0 <= p <= x.1 by {
        if sorted.len() == 0 || sorted.last().0 <= x.0 {
            lemma_cover_push(sorted, x, p);
        } else {
            lemma_cover_push(insert_by_start(sorted.drop_last(), x), sorted.last(), p);
            lemma_cover_push(sorted.drop_last(), sorted.last(), p);
        }
    }
}

/// A list with one more interval covers what the list covered and what the
/// interval covers.
proof fn lemma_cover_push(s: Seq<(i32, i32)>, x: (i32, i32), p: int)
    ensures
        covers(s.push(x), p) <==> covers(s, p) || x.0 <= p <= x.1,
{
    let longer = s.push(x);
    if covers(s, p) {
        let i = choose|i: int| 0 <= i < s.len() && (#[trigger] s[i]).0 <= p <= s[i].1;
        assert(longer[i] == s[i]);
    }
    if x.0 <= p <= x.1 {
        assert(longer[s.len() as int] == x);
    }
    if covers(longer, p) {
        let i = choose|i: int|
            0 <= i < longer.len() && (#[trigger] longer[i]).0 <= p <= longer[i].1;
        if i < s.len() {
            assert(s[i] == longer[i]);
        }
    }
}

/// The intervals in the order of their starts are the same intervals, each
/// as often as before, and their starts do not fall.
pub proof fn lemma_sort_by_start(s: Seq<(i32, i32)>)
    ensures
        starts_rise(sort_by_start(s)),
        sort_by_start(s).to_multiset() == s.to_multiset(),
        sort_by_start(s).len() == s.len(),
    decreases s.len(),
{
    broadcast use vstd::seq_lib::group_to_multiset_ensures;

    if s.len() > 0 {
        lemma_sort_by_start(s.drop_last());
        lemma_insert_by_start(sort_by_start(s.drop_last()), s.last());
        assert(s =~= s.drop_last().push(s.last()));
    }
}

/// Putting the intervals in the order of their starts changes nothing of
/// what they cover.
pub proof fn lemma_sort_keeps_cover(s: Seq<(i32, i32)>, p: int)
    ensures
        covers(sort_by_start(s), p) <==> covers(s, p),
    decreases s.len(),
{
    if s.len() > 0 {
        lemma_sort_by_start(s.drop_last());
        lemma_sort_keeps_cover(s.drop_last(), p);
        lemma_insert_by_start(sort_by_start(s.drop_last()), s.last());
        lemma_cover_push(s.drop_last(), s.last(), p);
        assert(s =~= s.drop_last().push(s.last()));
    }
}

/// Of intervals whose starts do not fall, the intervals put together are
/// apart from each other, their starts rise, and the last of them starts no
/// later than the last interval.
pub proof fn lemma_merge_in_order(s: Seq<(i32, i32)>)
    requires
        starts_rise(s),
    ensures
        are_apart(merge_in_order(s)),
        starts_rise(merge_in_order(s)),
        s.len() > 0 ==> merge_in_order(s).len() > 0 && merge_in_order(s).last().0 <= s.last().0,
        merge_in_order(s).len() <= s.len(),
    decreases s.len(),
{
    if s.len() > 0 {
        let shorter = s.drop_last();
        let before = merge_in_order(shorter);
        let x = s.last();
        let result = merge_in_order(s);
        assert(forall|i: int| 0 <= i < shorter.len() ==> shorter[i] == s[i]);
        lemma_merge_in_order(shorter);
        if shorter.len() > 0 {
            assert(s[s.len() - 2].0 <= s[s.len() - 1].0);
            assert(shorter.last().0 <= x.0);
        }
        if before.len() > 0 && x.0 <= before.last().1 {
            let last = before.last();
            let joined = (last.0, larger(last.1, x.1));
            assert(result == before.drop_last().push(joined));
            assert(result.len() == before.len());
            assert forall|i: int, j: int|
                0 <= i && j == i + 1 && j < result.len() implies result[i].1
                < result[j].0 by {
                assert(result[i] == before[i]);
                assert(result[j].0 == before[j].0);
                assert(before[i].1 < before[j].0);
            }
            assert forall|i: int, j: int| 0 <= i < j < result.len() implies result[i].0
                <= result[j].0 by {
                assert(result[i].0 == before[i].0);
                assert(result[j].0 == before[j].0);
            }
        } else {
            assert(result == before.push(x));
            assert forall|i: int, j: int|
                0 <= i && j == i + 1 && j < result.len() implies result[i].1
                < result[j].0 by {
                if i < before.len() - 1 {
                    assert(result[i] == before[i]);
                    assert(result[j] == before[j]);
                    assert(before[i].1 < before[j].0);
                } else {
                    assert(result[i] == before.last());
                    assert(result[j] == x);
                }
            }
            assert forall|i: int, j: int| 0 <= i < j < result.len() implies result[i].0
                <= result[j].0 by {
                assert(result[i] == before[i]);
                if j < before.len() {
                    assert(result[j] == before[j]);
                } else {
                    assert(result[j] == x);
                    if i < before.len() - 1 {
                        assert(before[i].0 <= before[before.len() - 1].0);
                    }
                }
            }
        }
    }
}

/// Of intervals whose starts do not fall, the intervals put together cover
/// what the intervals covered.
pub proof fn lemma_merge_keeps_cover(s: Seq<(i32, i32)>, p: int)
    requires
        starts_rise(s),
    ensures
        covers(merge_in_order(s), p) <==> covers(s, p),
    decreases s.len(),
{
    if s.len() > 0 {
        let shorter = s.drop_last();
        let before = merge_in_order(shorter);
        let x = s.last();
        let result = merge_in_order(s);
        assert(forall|i: int| 0 <= i < shorter.len() ==> shorter[i] == s[i]);
        lemma_merge_keeps_cover(shorter, p);
        lemma_merge_in_order(shorter);
        assert(s =~= shorter.push(x));
        lemma_cover_push(shorter, x, p);
        if shorter.len() > 0 {
            assert(s[s.len() - 2].0 <= s[s.len() - 1].0);
        }
        if before.len() > 0 && x.0 <= before.last().1 {
            let last = before.last();
            let joined = (last.0, larger(last.1, x.1));
            let kept = before.drop_last();
            assert(before =~= kept.push(last));
            lemma_cover_push(kept, joined, p);
            lemma_cover_push(kept, last, p);
            assert(last.0 <= x.0);
        } else {
            lemma_cover_push(before, x, p);
        }
    } else {
        assert(merge_in_order(s) =~= s);
    }
}

} // verus!
