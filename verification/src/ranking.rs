//! Ranking solutions: the highest score first.
//!
//! Solutions with equal scores stay in the order in which they were found,
//! so that a ranking is the same every time.

use crate::placement::SolutionModel;
use crate::search::solution_views;
use crate::search::ScrabbleSolution;
use vstd::prelude::*;

verus! {

/// Whether the entry at `a` comes before the entry at `b` in the ranking of
/// `scores`: it has the higher score, or the same score and the earlier place.
pub open spec fn ranks_before(scores: Seq<u32>, a: int, b: int) -> bool {
    scores[a] > scores[b] || (scores[a] == scores[b] && a < b)
}

/// Whether `order` lists positions of `scores` from `lo` up to `hi`, each
/// before all that follow it in the ranking.
pub open spec fn is_ranked_run(scores: Seq<u32>, order: Seq<usize>, lo: int, hi: int) -> bool {
    &&& forall|i: int| 0 <= i < order.len() ==> lo <= #[trigger] order[i] < hi
    &&& forall|i: int, j: int|
        0 <= i < j < order.len() ==> ranks_before(
            scores,
            #[trigger] order[i] as int,
            #[trigger] order[j] as int,
        )
}

/// Whether `order` is the ranking of `scores`: it lists every position
/// once, each before all that follow it in the ranking.
pub open spec fn is_ranking(scores: Seq<u32>, order: Seq<usize>) -> bool {
    order.len() == scores.len() && is_ranked_run(scores, order, 0, scores.len() as int)
}

/// The scores of a list of solutions.
pub open spec fn scores_of(solutions: Seq<SolutionModel>) -> Seq<u32> {
    Seq::new(solutions.len(), |i: int| solutions[i].score)
}

/// The solutions of `solutions` in the order `order`.
pub open spec fn in_order(solutions: Seq<SolutionModel>, order: Seq<usize>) -> Seq<SolutionModel> {
    Seq::new(order.len(), |i: int| solutions[order[i] as int])
}

/// A ranking lists every position.
pub proof fn lemma_ranking_lists_all(scores: Seq<u32>, order: Seq<usize>, x: int)
    requires
        is_ranking(scores, order),
        0 <= x < scores.len(),
    ensures
        exists|i: int| 0 <= i < order.len() && #[trigger] order[i] == x,
{
    let n = scores.len() as int;
    let places = Seq::new(order.len(), |i: int| order[i] as int);
    assert forall|i: int, j: int| 0 <= i < places.len() && 0 <= j < places.len() && i != j implies #[trigger] places[i] != #[trigger] places[j] by {
        if i < j {
            assert(ranks_before(scores, order[i] as int, order[j] as int));
        } else {
            assert(ranks_before(scores, order[j] as int, order[i] as int));
        }
    }
    places.unique_seq_to_set();
    vstd::set_lib::lemma_int_range(0, n);
    let all = vstd::set_lib::set_int_range(0, n);
    assert(places.to_set().subset_of(all)) by {
        assert forall|p: int| places.to_set().contains(p) implies all.contains(p) by {
            let i = choose|i: int| 0 <= i < places.len() && places[i] == p;
            assert(0 <= order[i] < n);
        }
    }
    vstd::set_lib::lemma_len_subset(places.to_set(), all);
    vstd::set_lib::lemma_subset_equality(places.to_set(), all);
    assert(all.contains(x));
    assert(places.to_set().contains(x));
    let i = choose|i: int| 0 <= i < places.len() && places[i] == x;
    assert(order[i] == x);
}

/// Two rankings of the same scores that agree before a place agree at it.
proof fn lemma_rankings_agree_at(scores: Seq<u32>, a: Seq<usize>, b: Seq<usize>, i: int)
    requires
        is_ranking(scores, a),
        is_ranking(scores, b),
        0 <= i < scores.len(),
        forall|k: int| 0 <= k < i ==> a[k] == b[k],
    ensures
        a[i] == b[i],
{
    if a[i] != b[i] {
        lemma_ranking_lists_all(scores, a, b[i] as int);
        lemma_ranking_lists_all(scores, b, a[i] as int);
        let j = choose|j: int| 0 <= j < a.len() && #[trigger] a[j] == b[i] as int;
        let k = choose|k: int| 0 <= k < b.len() && #[trigger] b[k] == a[i] as int;
        if j < i {
            assert(b[j] == b[i]);
            assert(ranks_before(scores, b[j] as int, b[i] as int));
        }
        if k < i {
            assert(a[k] == a[i]);
            assert(ranks_before(scores, a[k] as int, a[i] as int));
        }
        assert(ranks_before(scores, a[i] as int, a[j] as int));
        assert(ranks_before(scores, b[i] as int, b[k] as int));
    }
}

/// Two rankings of the same scores agree up to any place.
proof fn lemma_rankings_agree_up_to(scores: Seq<u32>, a: Seq<usize>, b: Seq<usize>, n: int)
    requires
        is_ranking(scores, a),
        is_ranking(scores, b),
        0 <= n <= scores.len(),
    ensures
        forall|k: int| 0 <= k < n ==> a[k] == b[k],
    decreases n,
{
    if n > 0 {
        lemma_rankings_agree_up_to(scores, a, b, n - 1);
        lemma_rankings_agree_at(scores, a, b, n - 1);
    }
}

/// There is only one ranking of given scores.
pub proof fn lemma_ranking_unique(scores: Seq<u32>, a: Seq<usize>, b: Seq<usize>)
    requires
        is_ranking(scores, a),
        is_ranking(scores, b),
    ensures
        a == b,
{
    lemma_rankings_agree_up_to(scores, a, b, scores.len() as int);
    assert(a =~= b);
}

/// In a ranking the scores never rise.
pub proof fn lemma_ranking_scores_fall(
    solutions: Seq<SolutionModel>,
    order: Seq<usize>,
    i: int,
    j: int,
)
    requires
        is_ranking(scores_of(solutions), order),
        0 <= i <= j < order.len(),
    ensures
        in_order(solutions, order)[i].score >= in_order(solutions, order)[j].score,
{
    if i < j {
        assert(ranks_before(scores_of(solutions), order[i] as int, order[j] as int));
    }
}

/// Merges two ranked runs of neighbouring ranges of positions into one.
fn merge_runs(
    scores: &Vec<u32>,
    left: &Vec<usize>,
    right: &Vec<usize>,
    Ghost(lo): Ghost<int>,
    Ghost(mid): Ghost<int>,
    Ghost(hi): Ghost<int>,
) -> (merged: Vec<usize>)
    requires
        0 <= lo <= mid <= hi <= scores@.len(),
        is_ranked_run(scores@, left@, lo, mid),
        is_ranked_run(scores@, right@, mid, hi),
        left@.len() == mid - lo,
        right@.len() == hi - mid,
    ensures
        is_ranked_run(scores@, merged@, lo, hi),
        merged@.len() == hi - lo,
{
    let mut merged: Vec<usize> = Vec::new();
    let mut i: usize = 0;
    let mut j: usize = 0;
    while i < left.len() || j < right.len()
        invariant
            0 <= lo <= mid <= hi <= scores@.len(),
            is_ranked_run(scores@, left@, lo, mid),
            is_ranked_run(scores@, right@, mid, hi),
            i <= left@.len(),
            j <= right@.len(),
            merged@.len() == i + j,
            is_ranked_run(scores@, merged@, lo, hi),
            forall|k: int, a: int|
                0 <= k < merged@.len() && i <= a < left@.len() ==> ranks_before(
                    scores@,
                    #[trigger] merged@[k] as int,
                    #[trigger] left@[a] as int,
                ),
            forall|k: int, b: int|
                0 <= k < merged@.len() && j <= b < right@.len() ==> ranks_before(
                    scores@,
                    #[trigger] merged@[k] as int,
                    #[trigger] right@[b] as int,
                ),
        decreases left@.len() - i + right@.len() - j,
    {
        let ghost before = merged@;
        let take_left = if i >= left.len() {
            false
        } else if j >= right.len() {
            true
        } else {
            scores[left[i]] >= scores[right[j]]
        };
        if take_left {
            let x = left[i];
            merged.push(x);
            proof {
                assert forall|k: int, a: int|
                    0 <= k < merged@.len() && i + 1 <= a < left@.len() implies ranks_before(
                    scores@,
                    #[trigger] merged@[k] as int,
                    #[trigger] left@[a] as int,
                ) by {
                    if k < before.len() {
                        assert(merged@[k] == before[k]);
                    } else {
                        assert(merged@[k] == left@[i as int]);
                    }
                }
                assert forall|k: int, b: int|
                    0 <= k < merged@.len() && j <= b < right@.len() implies ranks_before(
                    scores@,
                    #[trigger] merged@[k] as int,
                    #[trigger] right@[b] as int,
                ) by {
                    if k < before.len() {
                        assert(merged@[k] == before[k]);
                    } else {
                        assert(merged@[k] == left@[i as int]);
                        assert(left@[i as int] < mid <= right@[b]);
                        assert(ranks_before(scores@, left@[i as int] as int, right@[j as int] as int));
                        if b > j {
                            assert(ranks_before(scores@, right@[j as int] as int, right@[b] as int));
                        }
                    }
                }
                assert forall|a: int, b: int| 0 <= a < b < merged@.len() implies ranks_before(
                    scores@,
                    #[trigger] merged@[a] as int,
                    #[trigger] merged@[b] as int,
                ) by {
                    assert(merged@[a] == before[a]);
                    if b < before.len() {
                        assert(merged@[b] == before[b]);
                    } else {
                        assert(merged@[b] == left@[i as int]);
                    }
                }
                assert forall|k: int| 0 <= k < merged@.len() implies lo <= #[trigger] merged@[k]
                    < hi by {
                    if k < before.len() {
                        assert(merged@[k] == before[k]);
                    } else {
                        assert(merged@[k] == left@[i as int]);
                    }
                }
            }
            i += 1;
        } else {
            let x = right[j];
            merged.push(x);
            proof {
                assert forall|k: int, a: int|
                    0 <= k < merged@.len() && i <= a < left@.len() implies ranks_before(
                    scores@,
                    #[trigger] merged@[k] as int,
                    #[trigger] left@[a] as int,
                ) by {
                    if k < before.len() {
                        assert(merged@[k] == before[k]);
                    } else {
                        assert(merged@[k] == right@[j as int]);
                        assert(ranks_before(scores@, right@[j as int] as int, left@[i as int] as int));
                        if a > i {
                            assert(ranks_before(scores@, left@[i as int] as int, left@[a] as int));
                        }
                    }
                }
                assert forall|k: int, b: int|
                    0 <= k < merged@.len() && j + 1 <= b < right@.len() implies ranks_before(
                    scores@,
                    #[trigger] merged@[k] as int,
                    #[trigger] right@[b] as int,
                ) by {
                    if k < before.len() {
                        assert(merged@[k] == before[k]);
                    } else {
                        assert(merged@[k] == right@[j as int]);
                    }
                }
                assert forall|a: int, b: int| 0 <= a < b < merged@.len() implies ranks_before(
                    scores@,
                    #[trigger] merged@[a] as int,
                    #[trigger] merged@[b] as int,
                ) by {
                    assert(merged@[a] == before[a]);
                    if b < before.len() {
                        assert(merged@[b] == before[b]);
                    } else {
                        assert(merged@[b] == right@[j as int]);
                    }
                }
                assert forall|k: int| 0 <= k < merged@.len() implies lo <= #[trigger] merged@[k]
                    < hi by {
                    if k < before.len() {
                        assert(merged@[k] == before[k]);
                    } else {
                        assert(merged@[k] == right@[j as int]);
                    }
                }
            }
            j += 1;
        }
    }
    merged
}

/// The positions from `lo` up to `hi`, ranked.
fn rank_range(scores: &Vec<u32>, lo: usize, hi: usize) -> (order: Vec<usize>)
    requires
        lo <= hi <= scores@.len(),
    ensures
        is_ranked_run(scores@, order@, lo as int, hi as int),
        order@.len() == hi - lo,
    decreases hi - lo,
{
    if hi - lo <= 1 {
        let mut order: Vec<usize> = Vec::new();
        if hi - lo == 1 {
            order.push(lo);
        }
        order
    } else {
        let mid = lo + (hi - lo) / 2;
        let left = rank_range(scores, lo, mid);
        let right = rank_range(scores, mid, hi);
        merge_runs(scores, &left, &right, Ghost(lo as int), Ghost(mid as int), Ghost(hi as int))
    }
}

/// The ranking of `scores`: the positions of the scores, the highest score
/// first, equal scores in the order in which they stand.
pub fn ranking(scores: &Vec<u32>) -> (order: Vec<usize>)
    ensures
        is_ranking(scores@, order@),
{
    rank_range(scores, 0, scores.len())
}

/// The solutions ranked: the highest score first, solutions with equal
/// scores in the order in which they stand in `solutions`.
pub fn ranked(solutions: &Vec<ScrabbleSolution>) -> (result: Vec<ScrabbleSolution>)
    ensures
        result@.len() == solutions@.len(),
        exists|order: Seq<usize>|
            is_ranking(scores_of(solution_views(solutions@)), order) && #[trigger] in_order(
                solution_views(solutions@),
                order,
            ) == solution_views(result@),
        forall|i: int, j: int|
            0 <= i <= j < result@.len() ==> (#[trigger] result@[i]).score >= (
            #[trigger] result@[j]).score,
{
    let n = solutions.len();
    let mut scores: Vec<u32> = Vec::new();
    let mut k: usize = 0;
    while k < n
        invariant
            n == solutions@.len(),
            k <= n,
            scores@.len() == k,
            forall|i: int| 0 <= i < k ==> #[trigger] scores@[i] == solutions@[i].score,
        decreases n - k,
    {
        scores.push(solutions[k].score);
        k += 1;
    }
    assert(scores@ =~= scores_of(solution_views(solutions@)));
    let order = ranking(&scores);
    let mut result: Vec<ScrabbleSolution> = Vec::new();
    let mut i: usize = 0;
    while i < n
        invariant
            n == solutions@.len(),
            order@.len() == n,
            is_ranking(scores_of(solution_views(solutions@)), order@),
            i <= n,
            result@.len() == i,
            forall|k: int|
                0 <= k < i ==> (#[trigger] result@[k])@ == solutions@[order@[k] as int]@,
        decreases n - i,
    {
        let at = order[i];
        result.push(solutions[at].clone());
        i += 1;
    }
    proof {
        let views = solution_views(solutions@);
        assert(in_order(views, order@) =~= solution_views(result@));
        assert forall|i: int, j: int| 0 <= i <= j < result@.len() implies (
        #[trigger] result@[i]).score >= (#[trigger] result@[j]).score by {
            lemma_ranking_scores_fall(views, order@, i, j);
            assert(in_order(views, order@)[i] == result@[i]@);
            assert(in_order(views, order@)[j] == result@[j]@);
        }
    }
    result
}

} // verus!
