use vstd::prelude::*;
use crate::nms::{lemma_score_order_exists, lemma_score_order_unique, greedy_keep, is_score_order, is_square, nms_keep, occurs, ranks_before, score_order_of, suppressed_by};

verus! {

/// The overlap relation relates no two detections: no overlap ratio exceeds
/// the threshold, as with a threshold of one.
pub open spec fn overlaps_nowhere(ov: Seq<Seq<bool>>) -> bool {
    forall|i: int, j: int| 0 <= i < ov.len() && 0 <= j < ov[i].len() ==> !(#[trigger] ov[i][j])
}

/// The overlap relation relates every two different detections, as when all
/// boxes coincide and the threshold is zero.
pub open spec fn overlaps_everywhere(ov: Seq<Seq<bool>>) -> bool {
    forall|i: int, j: int| 0 <= i < ov.len() && 0 <= j < ov[i].len() && i != j ==> #[trigger] ov[i][j]
}

/// Every kept index is one of the visited indices, and no more are kept
/// than were visited.
pub proof fn lemma_keep_within_order(ov: Seq<Seq<bool>>, order: Seq<usize>)
    ensures
        greedy_keep(ov, order).len() <= order.len(),
        forall|k: int| 0 <= k < greedy_keep(ov, order).len() ==> occurs(order, #[trigger] greedy_keep(ov, order)[k] as int),
    decreases order.len(),
{
    if order.len() > 0 {
        let front = order.drop_last();
        lemma_keep_within_order(ov, front);
        let prev = greedy_keep(ov, front);
        let keep = greedy_keep(ov, order);
        assert forall|k: int| 0 <= k < keep.len() implies occurs(order, #[trigger] keep[k] as int) by {
            if k < prev.len() {
                assert(keep[k] == prev[k]);
                assert(occurs(front, prev[k] as int));
                let p = choose|p: int| 0 <= p < front.len() && #[trigger] front[p] == prev[k] as int;
                assert(order[p] == front[p]);
            } else {
                assert(order[order.len() - 1] == keep[k]);
            }
        }
    }
}

/// No detection that is kept overlaps one that is kept after it.
pub proof fn lemma_keep_no_overlap(ov: Seq<Seq<bool>>, order: Seq<usize>)
    ensures
        forall|a: int, b: int|
            0 <= a < b < greedy_keep(ov, order).len() ==> !ov[#[trigger] greedy_keep(ov, order)[a] as int][#[trigger] greedy_keep(
                ov,
                order,
            )[b] as int],
    decreases order.len(),
{
    if order.len() > 0 {
        let front = order.drop_last();
        lemma_keep_no_overlap(ov, front);
        let prev = greedy_keep(ov, front);
        let keep = greedy_keep(ov, order);
        assert forall|a: int, b: int| 0 <= a < b < keep.len() implies !ov[#[trigger] keep[a] as int][#[trigger] keep[b] as int] by {
            if b < prev.len() {
                assert(keep[a] == prev[a] && keep[b] == prev[b]);
            } else {
                assert(!suppressed_by(ov, prev, order.last() as int));
                assert(keep[a] == prev[a]);
            }
        }
    }
}

/// No index is kept twice.
pub proof fn lemma_keep_distinct(ov: Seq<Seq<bool>>, order: Seq<usize>)
    requires
        forall|p: int, q: int| 0 <= p < q < order.len() ==> (#[trigger] order[p]) != (#[trigger] order[q]),
    ensures
        forall|a: int, b: int|
            0 <= a < b < greedy_keep(ov, order).len() ==> (#[trigger] greedy_keep(ov, order)[a]) != (
            #[trigger] greedy_keep(ov, order)[b]),
    decreases order.len(),
{
    if order.len() > 0 {
        let front = order.drop_last();
        assert forall|p: int, q: int| 0 <= p < q < front.len() implies (#[trigger] front[p]) != (
        #[trigger] front[q]) by {
            assert(front[p] == order[p] && front[q] == order[q]);
        }
        lemma_keep_distinct(ov, front);
        lemma_keep_within_order(ov, front);
        let prev = greedy_keep(ov, front);
        let keep = greedy_keep(ov, order);
        assert forall|a: int, b: int| 0 <= a < b < keep.len() implies (#[trigger] keep[a]) != (#[trigger] keep[b]) by {
            assert(keep[a] == prev[a]);
            if b < prev.len() {
                assert(keep[b] == prev[b]);
            } else {
                assert(occurs(front, prev[a] as int));
                let p = choose|p: int| 0 <= p < front.len() && #[trigger] front[p] == prev[a] as int;
                assert(order[p] == front[p]);
                assert(order[p] != order[order.len() - 1]);
            }
        }
    }
}

/// The overlap relation does not depend on the order of its two
/// detections, as a ratio of areas does not.
pub open spec fn overlaps_symmetric(ov: Seq<Seq<bool>>) -> bool {
    forall|i: int, j: int|
        0 <= i < ov.len() && 0 <= j < ov.len() && 0 <= j < ov[i].len() && 0 <= i < ov[j].len() ==> #[trigger] ov[i][j]
            == ov[j][i]
}

/// Where nothing overlaps, every visited detection is kept.
pub proof fn lemma_no_overlap_keeps_all(ov: Seq<Seq<bool>>, order: Seq<usize>)
    requires
        is_square(ov, order.len() as int),
        overlaps_nowhere(ov),
        forall|p: int| 0 <= p < order.len() ==> (#[trigger] order[p]) < order.len(),
    ensures
        greedy_keep(ov, order) == order,
{
    lemma_no_overlap_prefix(ov, order, order.len());
    assert(order.take(order.len() as int) =~= order);
}

proof fn lemma_no_overlap_prefix(ov: Seq<Seq<bool>>, order: Seq<usize>, k: nat)
    requires
        is_square(ov, order.len() as int),
        overlaps_nowhere(ov),
        forall|p: int| 0 <= p < order.len() ==> (#[trigger] order[p]) < order.len(),
        k <= order.len(),
    ensures
        greedy_keep(ov, order.take(k as int)) == order.take(k as int),
    decreases k,
{
    let part = order.take(k as int);
    if k > 0 {
        lemma_no_overlap_prefix(ov, order, (k - 1) as nat);
        assert(part.drop_last() =~= order.take(k - 1));
        let prev = greedy_keep(ov, part.drop_last());
        let j = part.last();
        assert(j == order[k - 1]);
        if suppressed_by(ov, prev, j as int) {
            let w = choose|w: int| 0 <= w < prev.len() && ov[#[trigger] prev[w] as int][j as int];
            assert(prev[w] == order[w]);
            assert(!ov[prev[w] as int][j as int]);
        }
        assert(prev.push(j) =~= part);
    } else {
        assert(part =~= Seq::<usize>::empty());
    }
}

/// Where every two different detections overlap, exactly the first visited
/// detection is kept.
pub proof fn lemma_full_overlap_keeps_first(ov: Seq<Seq<bool>>, order: Seq<usize>)
    requires
        is_square(ov, order.len() as int),
        overlaps_everywhere(ov),
        forall|p: int| 0 <= p < order.len() ==> (#[trigger] order[p]) < order.len(),
        forall|p: int, q: int| 0 <= p < q < order.len() ==> (#[trigger] order[p]) != (#[trigger] order[q]),
    ensures
        order.len() == 0 ==> greedy_keep(ov, order).len() == 0,
        order.len() > 0 ==> greedy_keep(ov, order) == seq![order[0]],
{
    lemma_full_overlap_prefix(ov, order, order.len());
    assert(order.take(order.len() as int) =~= order);
}

proof fn lemma_full_overlap_prefix(ov: Seq<Seq<bool>>, order: Seq<usize>, k: nat)
    requires
        is_square(ov, order.len() as int),
        overlaps_everywhere(ov),
        forall|p: int| 0 <= p < order.len() ==> (#[trigger] order[p]) < order.len(),
        forall|p: int, q: int| 0 <= p < q < order.len() ==> (#[trigger] order[p]) != (#[trigger] order[q]),
        k <= order.len(),
    ensures
        k == 0 ==> greedy_keep(ov, order.take(k as int)).len() == 0,
        k > 0 ==> greedy_keep(ov, order.take(k as int)) == seq![order[0]],
    decreases k,
{
    let part = order.take(k as int);
    if k > 0 {
        lemma_full_overlap_prefix(ov, order, (k - 1) as nat);
        assert(part.drop_last() =~= order.take(k - 1));
        let prev = greedy_keep(ov, part.drop_last());
        let j = part.last();
        assert(j == order[k - 1]);
        if k == 1 {
            assert(prev.push(j) =~= seq![order[0]]);
        } else {
            assert(prev[0] == order[0]);
            assert(order[0] != order[k - 1]);
            assert(ov[prev[0] as int][j as int]);
        }
    }
}

/// Suppression in full: the kept indices are indices of the input, none is
/// kept twice, and none overlaps one kept after it; where the overlap
/// relation is symmetric, no two kept detections overlap at all.
pub proof fn lemma_nms_keeps_compatible_subset(scores: Seq<i32>, ov: Seq<Seq<bool>>)
    requires
        is_square(ov, scores.len() as int),
        scores.len() <= usize::MAX,
    ensures
        nms_keep(scores, ov).len() <= scores.len(),
        forall|k: int| 0 <= k < nms_keep(scores, ov).len() ==> (#[trigger] nms_keep(scores, ov)[k]) < scores.len(),
        forall|a: int, b: int|
            0 <= a < b < nms_keep(scores, ov).len() ==> (#[trigger] nms_keep(scores, ov)[a]) != (#[trigger] nms_keep(
                scores,
                ov,
            )[b]),
        overlaps_symmetric(ov) ==> forall|a: int, b: int|
            0 <= a < nms_keep(scores, ov).len() && 0 <= b < nms_keep(scores, ov).len() && a != b ==> !ov[#[trigger] nms_keep(
                scores,
                ov,
            )[a] as int][#[trigger] nms_keep(scores, ov)[b] as int],
        forall|a: int, b: int|
            0 <= a < b < nms_keep(scores, ov).len() ==> !ov[#[trigger] nms_keep(scores, ov)[a] as int][#[trigger] nms_keep(
                scores,
                ov,
            )[b] as int],
{
    let order = score_order_of(scores);
    lemma_score_order_exists(scores);
    lemma_keep_within_order(ov, order);
    lemma_keep_no_overlap(ov, order);
    let keep = nms_keep(scores, ov);
    assert forall|k: int| 0 <= k < keep.len() implies (#[trigger] keep[k]) < scores.len() by {
        assert(occurs(order, keep[k] as int));
    }
    assert forall|p: int, q: int| 0 <= p < q < order.len() implies (#[trigger] order[p]) != (#[trigger] order[q]) by {
        assert(ranks_before(scores, order[p] as int, order[q] as int));
    }
    lemma_keep_distinct(ov, order);
    if overlaps_symmetric(ov) {
        assert forall|a: int, b: int| 0 <= a < keep.len() && 0 <= b < keep.len() && a != b implies !ov[#[trigger] keep[a] as int][#[trigger] keep[b] as int] by {
            if a < b {
                assert(!ov[keep[a] as int][keep[b] as int]);
            } else {
                assert(!ov[keep[b] as int][keep[a] as int]);
                assert(ov[keep[a] as int][keep[b] as int] == ov[keep[b] as int][keep[a] as int]);
            }
        }
    }
}

/// Suppression is a function of its input: two runs on the same scores and
/// the same overlap relation, each along a visiting order of the scores,
/// keep the same indices in the same order.
pub proof fn lemma_nms_repeatable(
    scores: Seq<i32>,
    ov: Seq<Seq<bool>>,
    first_order: Seq<usize>,
    second_order: Seq<usize>,
)
    requires
        is_score_order(scores, first_order),
        is_score_order(scores, second_order),
    ensures
        greedy_keep(ov, first_order) == greedy_keep(ov, second_order),
        greedy_keep(ov, first_order) == nms_keep(scores, ov),
{
    lemma_score_order_unique(scores, first_order, second_order);
}

/// With no overlap beyond the threshold, suppression keeps every detection;
/// with every pair overlapping, it keeps the best one alone.
pub proof fn lemma_nms_extremes(scores: Seq<i32>, ov: Seq<Seq<bool>>)
    requires
        is_square(ov, scores.len() as int),
        scores.len() <= usize::MAX,
    ensures
        overlaps_nowhere(ov) ==> nms_keep(scores, ov) == score_order_of(scores),
        overlaps_everywhere(ov) ==> nms_keep(scores, ov).len() <= 1,
{
    let order = score_order_of(scores);
    lemma_score_order_exists(scores);
    assert forall|p: int, q: int| 0 <= p < q < order.len() implies (#[trigger] order[p]) != (#[trigger] order[q]) by {
        assert(ranks_before(scores, order[p] as int, order[q] as int));
    }
    if overlaps_nowhere(ov) {
        lemma_no_overlap_keeps_all(ov, order);
    }
    if overlaps_everywhere(ov) {
        lemma_full_overlap_keeps_first(ov, order);
    }
}

} // verus!
