//! Ordering keypoints by score: highest first, equal scores in input order.
use vstd::prelude::*;
use vstd::seq_lib::{to_multiset_build, to_multiset_remove};
use vstd::set_lib::{lemma_int_range, lemma_subset_equality, set_int_range};
use crate::keypoint::Keypoint;

verus! {

/// Whether the keypoint at input position `i` goes before the one at `j`:
/// the higher score first, and of two equal scores the earlier position.
pub open spec fn precedes(s: Seq<Keypoint>, i: int, j: int) -> bool {
    s[i].score > s[j].score || (s[i].score == s[j].score && i < j)
}

/// Whether `order` lists positions of `s`, each before all that it does not
/// precede.
pub open spec fn is_ranking(s: Seq<Keypoint>, order: Seq<int>) -> bool {
    &&& order.len() == s.len()
    &&& forall|a: int| 0 <= a < order.len() ==> 0 <= #[trigger] order[a] < s.len()
    &&& forall|a: int, b: int| 0 <= a < b < order.len() ==> precedes(s, #[trigger] order[a], #[trigger] order[b])
}

/// How many leading entries of `order` are positions of keypoints that score
/// at least `score`.
pub open spec fn slot(s: Seq<Keypoint>, order: Seq<int>, score: u32) -> int
    decreases order.len(),
{
    if order.len() == 0 || s[order[0]].score < score {
        0
    } else {
        1 + slot(s, order.drop_first(), score)
    }
}

/// The positions of `s` in the order of a stable sort by falling score.
pub open spec fn ranking(s: Seq<Keypoint>) -> Seq<int>
    decreases s.len(),
{
    if s.len() == 0 {
        Seq::empty()
    } else {
        let head = ranking(s.drop_last());
        head.insert(slot(s, head, s.last().score), s.len() - 1)
    }
}

/// The keypoints of `s` sorted by falling score, equal scores in input order.
pub open spec fn ranked(s: Seq<Keypoint>) -> Seq<Keypoint> {
    Seq::new(s.len(), |a: int| s[ranking(s)[a]])
}

/// The entries before the slot score at least `score`, the entry at the slot
/// scores less.
proof fn lemma_slot(s: Seq<Keypoint>, order: Seq<int>, score: u32)
    ensures
        0 <= slot(s, order, score) <= order.len(),
        forall|a: int| 0 <= a < slot(s, order, score) ==> s[#[trigger] order[a]].score >= score,
        slot(s, order, score) < order.len() ==> s[order[slot(s, order, score)]].score < score,
    decreases order.len(),
{
    if order.len() == 0 || s[order[0]].score < score {
    } else {
        let rest = order.drop_first();
        lemma_slot(s, rest, score);
        assert forall|a: int| 0 <= a < slot(s, order, score) implies s[#[trigger] order[a]].score
            >= score by {
            if a > 0 {
                assert(order[a] == rest[a - 1]);
            }
        }
        if slot(s, order, score) < order.len() {
            assert(order[slot(s, order, score)] == rest[slot(s, rest, score)]);
        }
    }
}

/// The ranking lists every position once, higher scores first and equal
/// scores in input order.
pub proof fn lemma_ranking(s: Seq<Keypoint>)
    ensures
        is_ranking(s, ranking(s)),
        forall|j: int| 0 <= j < s.len() ==> ranking(s).contains(j),
    decreases s.len(),
{
    if s.len() > 0 {
        let t = s.drop_last();
        let n = s.len() - 1;
        let head = ranking(t);
        let p = slot(s, head, s.last().score);
        let order = ranking(s);
        lemma_ranking(t);
        lemma_slot(s, head, s.last().score);
        assert(order == head.insert(p, n));
        assert forall|a: int| 0 <= a < order.len() implies 0 <= #[trigger] order[a] < s.len() by {
            if a < p {
                assert(order[a] == head[a]);
            } else if a > p {
                assert(order[a] == head[a - 1]);
            }
        }
        assert forall|a: int, b: int| 0 <= a < b < order.len() implies precedes(
            s,
            #[trigger] order[a],
            #[trigger] order[b],
        ) by {
            if b < p {
                assert(order[a] == head[a] && order[b] == head[b]);
                assert(precedes(t, head[a], head[b]));
            } else if b == p {
                assert(order[a] == head[a]);
                assert(s[head[a]].score >= s.last().score);
            } else if a < p {
                assert(order[a] == head[a] && order[b] == head[b - 1]);
                assert(precedes(t, head[a], head[b - 1]));
            } else if a == p {
                assert(order[b] == head[b - 1]);
                if p < b - 1 {
                    assert(precedes(t, head[p], head[b - 1]));
                }
                assert(s[head[b - 1]].score < s.last().score);
            } else {
                assert(order[a] == head[a - 1] && order[b] == head[b - 1]);
                assert(precedes(t, head[a - 1], head[b - 1]));
            }
        }
        assert forall|j: int| 0 <= j < s.len() implies order.contains(j) by {
            if j == n {
                assert(order[p] == n);
            } else {
                assert(head.contains(j));
                let a = choose|a: int| 0 <= a < head.len() && head[a] == j;
                if a < p {
                    assert(order[a] == j);
                } else {
                    assert(order[a + 1] == j);
                }
            }
        }
    }
}

/// The sorted keypoints are the input keypoints, scores never rising.
pub proof fn lemma_ranked_descending(s: Seq<Keypoint>)
    ensures
        ranked(s).len() == s.len(),
        forall|a: int, b: int| 0 <= a <= b < s.len() ==> #[trigger] ranked(s)[a].score >= #[trigger] ranked(s)[b].score,
{
    lemma_ranking(s);
    let order = ranking(s);
    assert forall|a: int, b: int| 0 <= a <= b < s.len() implies #[trigger] ranked(s)[a].score
        >= #[trigger] ranked(s)[b].score by {
        if a < b {
            assert(precedes(s, order[a], order[b]));
        }
    }
}

/// Sorting one keypoint more puts it into the sorted rest, behind every
/// keypoint that scores at least as much.
pub proof fn lemma_ranked_step(s: Seq<Keypoint>)
    requires
        s.len() > 0,
    ensures
        ranked(s) == ranked(s.drop_last()).insert(
            slot(s, ranking(s.drop_last()), s.last().score),
            s.last(),
        ),
        0 <= slot(s, ranking(s.drop_last()), s.last().score) <= s.len() - 1,
{
    let t = s.drop_last();
    let head = ranking(t);
    let p = slot(s, head, s.last().score);
    lemma_ranking(t);
    lemma_slot(s, head, s.last().score);
    let grown = ranked(t).insert(p, s.last());
    assert forall|a: int| 0 <= a < s.len() implies ranked(s)[a] == grown[a] by {
        if a < p {
            assert(ranking(s)[a] == head[a]);
        } else if a > p {
            assert(ranking(s)[a] == head[a - 1]);
        }
    }
    assert(ranked(s) =~= grown);
}

/// Sorting keeps every keypoint, as often as it occurs.
pub proof fn lemma_ranked_permutes(s: Seq<Keypoint>)
    ensures
        ranked(s).to_multiset() == s.to_multiset(),
    decreases s.len(),
{
    if s.len() == 0 {
        assert(ranked(s) =~= s);
    } else {
        let t = s.drop_last();
        let p = slot(s, ranking(t), s.last().score);
        lemma_ranked_step(s);
        lemma_ranked_permutes(t);
        assert(ranked(s).remove(p) =~= ranked(t));
        to_multiset_remove(ranked(s), p);
        to_multiset_build(t, s.last());
        assert(t.push(s.last()) =~= s);
        assert(ranked(s)[p] == s.last());
        ranked(s).to_multiset_ensures();
        assert(ranked(s).contains(s.last()));
        assert(ranked(s).to_multiset() =~= ranked(t).to_multiset().insert(s.last()));
    }
}

/// An order that lists positions of `s`, each before all that it does not
/// precede, lists every position.
pub proof fn lemma_ranking_is_onto(s: Seq<Keypoint>, order: Seq<int>, j: int)
    requires
        is_ranking(s, order),
        0 <= j < s.len(),
    ensures
        order.contains(j),
{
    assert forall|a: int, b: int| 0 <= a < order.len() && 0 <= b < order.len() && a != b implies order[a]
        != order[b] by {
        if a < b {
            assert(precedes(s, order[a], order[b]));
        } else {
            assert(precedes(s, order[b], order[a]));
        }
    }
    assert(order.no_duplicates());
    order.unique_seq_to_set();
    let all = set_int_range(0, s.len() as int);
    lemma_int_range(0, s.len() as int);
    assert(order.to_set().subset_of(all)) by {
        assert forall|v: int| order.to_set().contains(v) implies all.contains(v) by {
            let a = choose|a: int| 0 <= a < order.len() && order[a] == v;
            assert(0 <= order[a] < s.len());
        }
    }
    vstd::seq_lib::seq_to_set_is_finite(order);
    lemma_subset_equality(order.to_set(), all);
    assert(all.contains(j));
    assert(order.to_set().contains(j));
}

/// There is one order only that lists positions of `s`, each before all
/// that it does not precede: the ranking.
pub proof fn lemma_ranking_is_unique(s: Seq<Keypoint>, order: Seq<int>)
    requires
        is_ranking(s, order),
    ensures
        order == ranking(s),
{
    let other = ranking(s);
    lemma_ranking(s);
    assert forall|a: int| 0 <= a < order.len() implies order[a] == other[a] by {
        lemma_agree_upto(s, order, other, a);
    }
    assert(order =~= other);
}

/// Two such orders agree at position `a`.
proof fn lemma_agree_upto(s: Seq<Keypoint>, first: Seq<int>, second: Seq<int>, a: int)
    requires
        is_ranking(s, first),
        is_ranking(s, second),
        0 <= a < s.len(),
    ensures
        first[a] == second[a],
    decreases a,
{
    lemma_ranking_is_onto(s, second, first[a]);
    lemma_ranking_is_onto(s, first, second[a]);
    let c = choose|c: int| 0 <= c < second.len() && second[c] == first[a];
    let d = choose|d: int| 0 <= d < first.len() && first[d] == second[a];
    if c < a {
        lemma_agree_upto(s, first, second, c);
        assert(precedes(s, first[c], first[a]));
    } else if d < a {
        lemma_agree_upto(s, first, second, d);
        assert(precedes(s, second[d], second[a]));
    } else if c > a && d > a {
        assert(precedes(s, second[a], second[c]));
        assert(precedes(s, first[a], first[d]));
    }
}

/// Whether `order` lists positions of `s` from `low` up to `high`, each
/// before all that it does not precede.
spec fn is_run(s: Seq<Keypoint>, order: Seq<int>, low: int, high: int) -> bool {
    &&& order.len() == high - low
    &&& forall|a: int| 0 <= a < order.len() ==> low <= #[trigger] order[a] < high
    &&& forall|a: int, b: int| 0 <= a < b < order.len() ==> precedes(s, #[trigger] order[a], #[trigger] order[b])
}

/// Whether `run` holds the keypoints of `s` at the positions that `order`
/// lists.
spec fn holds(s: Seq<Keypoint>, run: Seq<Keypoint>, order: Seq<int>) -> bool {
    &&& run.len() == order.len()
    &&& forall|a: int| 0 <= a < run.len() ==> #[trigger] run[a] == s[order[a]]
}

/// Merges two sorted runs that lie side by side in the input; of two equal
/// scores the one from the left run goes first.
fn merge_runs(
    left: Vec<Keypoint>,
    right: Vec<Keypoint>,
    Ghost(s): Ghost<Seq<Keypoint>>,
    Ghost(left_order): Ghost<Seq<int>>,
    Ghost(right_order): Ghost<Seq<int>>,
    Ghost(low): Ghost<int>,
    Ghost(mid): Ghost<int>,
    Ghost(high): Ghost<int>,
) -> (merged: (Vec<Keypoint>, Ghost<Seq<int>>))
    requires
        0 <= low <= mid <= high <= s.len(),
        high <= usize::MAX,
        is_run(s, left_order, low, mid),
        is_run(s, right_order, mid, high),
        holds(s, left@, left_order),
        holds(s, right@, right_order),
    ensures
        is_run(s, merged.1@, low, high),
        holds(s, merged.0@, merged.1@),
{
    let total = left.len() + right.len();
    let mut out: Vec<Keypoint> = Vec::with_capacity(total);
    let ghost mut order: Seq<int> = Seq::empty();
    let mut i: usize = 0;
    let mut j: usize = 0;
    while i < left.len() || j < right.len()
        invariant
            0 <= low <= mid <= high <= s.len(),
            high <= usize::MAX,
            is_run(s, left_order, low, mid),
            is_run(s, right_order, mid, high),
            holds(s, left@, left_order),
            holds(s, right@, right_order),
            i <= left@.len(),
            j <= right@.len(),
            order.len() == i + j,
            holds(s, out@, order),
            forall|a: int| 0 <= a < order.len() ==> low <= #[trigger] order[a] < high,
            forall|a: int, b: int| 0 <= a < b < order.len() ==> precedes(s, #[trigger] order[a], #[trigger] order[b]),
            forall|a: int, b: int| 0 <= a < order.len() && i <= b < left_order.len() ==> precedes(s, #[trigger] order[a], #[trigger] left_order[b]),
            forall|a: int, b: int| 0 <= a < order.len() && j <= b < right_order.len() ==> precedes(s, #[trigger] order[a], #[trigger] right_order[b]),
        decreases left@.len() - i + right@.len() - j,
    {
        let ghost before = order;
        if j == right.len() || (i < left.len() && left[i].score >= right[j].score) {
            proof {
                let next = left_order[i as int];
                order = order.push(next);
                assert forall|a: int, b: int| 0 <= a < order.len() && i + 1 <= b < left_order.len() implies precedes(
                    s,
                    #[trigger] order[a],
                    #[trigger] left_order[b],
                ) by {
                    if a == before.len() {
                        assert(precedes(s, left_order[i as int], left_order[b]));
                    } else {
                        assert(order[a] == before[a]);
                    }
                }
                assert forall|a: int, b: int| 0 <= a < order.len() && j <= b < right_order.len() implies precedes(
                    s,
                    #[trigger] order[a],
                    #[trigger] right_order[b],
                ) by {
                    if a == before.len() {
                        assert(right@[j as int] == s[right_order[j as int]]);
                        assert(left@[i as int] == s[next]);
                        if j < b {
                            assert(precedes(s, right_order[j as int], right_order[b]));
                        }
                        assert(next < mid <= right_order[b]);
                    } else {
                        assert(order[a] == before[a]);
                    }
                }
                assert forall|a: int, b: int| 0 <= a < b < order.len() implies precedes(
                    s,
                    #[trigger] order[a],
                    #[trigger] order[b],
                ) by {
                    assert(order[a] == before[a]);
                    if b == before.len() {
                        assert(precedes(s, before[a], left_order[i as int]));
                    } else {
                        assert(order[b] == before[b]);
                    }
                }
            }
            out.push(left[i]);
            i = i + 1;
        } else {
            proof {
                let next = right_order[j as int];
                order = order.push(next);
                assert forall|a: int, b: int| 0 <= a < order.len() && i <= b < left_order.len() implies precedes(
                    s,
                    #[trigger] order[a],
                    #[trigger] left_order[b],
                ) by {
                    if a == before.len() {
                        assert(right@[j as int] == s[next]);
                        assert(left@[i as int] == s[left_order[i as int]]);
                        if i < b {
                            assert(precedes(s, left_order[i as int], left_order[b]));
                        }
                    } else {
                        assert(order[a] == before[a]);
                    }
                }
                assert forall|a: int, b: int| 0 <= a < order.len() && j + 1 <= b < right_order.len() implies precedes(
                    s,
                    #[trigger] order[a],
                    #[trigger] right_order[b],
                ) by {
                    if a == before.len() {
                        assert(precedes(s, right_order[j as int], right_order[b]));
                    } else {
                        assert(order[a] == before[a]);
                    }
                }
                assert forall|a: int, b: int| 0 <= a < b < order.len() implies precedes(
                    s,
                    #[trigger] order[a],
                    #[trigger] order[b],
                ) by {
                    assert(order[a] == before[a]);
                    if b == before.len() {
                        assert(precedes(s, before[a], right_order[j as int]));
                    } else {
                        assert(order[b] == before[b]);
                    }
                }
            }
            out.push(right[j]);
            j = j + 1;
        }
    }
    (out, Ghost(order))
}

/// Sorts the keypoints from position `low` up to `high` by merging the sorted
/// halves.
fn sort_run(keypoints: &Vec<Keypoint>, low: usize, high: usize) -> (sorted: (Vec<Keypoint>, Ghost<Seq<int>>))
    requires
        low <= high <= keypoints@.len(),
    ensures
        is_run(keypoints@, sorted.1@, low as int, high as int),
        holds(keypoints@, sorted.0@, sorted.1@),
    decreases high - low,
{
    if high - low == 0 {
        (Vec::new(), Ghost(Seq::empty()))
    } else if high - low == 1 {
        let mut run: Vec<Keypoint> = Vec::with_capacity(1);
        run.push(keypoints[low]);
        (run, Ghost(Seq::empty().push(low as int)))
    } else {
        let mid = low + (high - low) / 2;
        let (left, Ghost(left_order)) = sort_run(keypoints, low, mid);
        let (right, Ghost(right_order)) = sort_run(keypoints, mid, high);
        merge_runs(
            left,
            right,
            Ghost(keypoints@),
            Ghost(left_order),
            Ghost(right_order),
            Ghost(low as int),
            Ghost(mid as int),
            Ghost(high as int),
        )
    }
}

/// Sorts by falling score; keypoints of equal score keep their order.
pub fn sort_by_score(keypoints: Vec<Keypoint>) -> (sorted: Vec<Keypoint>)
    ensures
        sorted@ == ranked(keypoints@),
{
    let (sorted, Ghost(order)) = sort_run(&keypoints, 0, keypoints.len());
    proof {
        lemma_ranking_is_unique(keypoints@, order);
        assert(sorted@ =~= ranked(keypoints@));
    }
    sorted
}

} // verus!
