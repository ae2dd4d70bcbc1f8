use vstd::prelude::*;
use crate::error::KernelError;

verus! {

/// The indices, in ascending order, of the scores that reach `min_score`.
pub open spec fn passing(scores: Seq<i32>, min_score: i32) -> Seq<usize>
    decreases scores.len(),
{
    if scores.len() == 0 {
        Seq::empty()
    } else {
        let front = passing(scores.drop_last(), min_score);
        if scores.last() >= min_score {
            front.push((scores.len() - 1) as usize)
        } else {
            front
        }
    }
}

/// The items at the given indices, in the order of the indices.
pub open spec fn gather<T>(items: Seq<T>, idx: Seq<usize>) -> Seq<T> {
    Seq::new(idx.len(), |k: int| items[idx[k] as int])
}

/// Every passing index is an index of `scores` whose score reaches the
/// minimum, the indices ascend, and no index that reaches it is left out.
pub proof fn lemma_passing_exact(scores: Seq<i32>, min_score: i32)
    requires
        scores.len() <= usize::MAX,
    ensures
        passing(scores, min_score).len() <= scores.len(),
        forall|k: int|
            0 <= k < passing(scores, min_score).len() ==> (#[trigger] passing(scores, min_score)[k]) < scores.len()
                && scores[passing(scores, min_score)[k] as int] >= min_score,
        forall|a: int, b: int|
            0 <= a < b < passing(scores, min_score).len() ==> (#[trigger] passing(scores, min_score)[a]) < (
            #[trigger] passing(scores, min_score)[b]),
        forall|i: int|
            0 <= i < scores.len() && scores[i] >= min_score ==> exists|k: int|
                0 <= k < passing(scores, min_score).len() && #[trigger] passing(scores, min_score)[k] == i,
    decreases scores.len(),
{
    if scores.len() > 0 {
        let front_scores = scores.drop_last();
        lemma_passing_exact(front_scores, min_score);
        let front = passing(front_scores, min_score);
        let all = passing(scores, min_score);
        assert forall|k: int| 0 <= k < all.len() implies (#[trigger] all[k]) < scores.len() && scores[all[k] as int]
            >= min_score by {
            if k < front.len() {
                assert(all[k] == front[k]);
                assert(front_scores[front[k] as int] == scores[front[k] as int]);
            }
        }
        assert forall|a: int, b: int| 0 <= a < b < all.len() implies (#[trigger] all[a]) < (#[trigger] all[b]) by {
            assert(all[a] == front[a]);
            if b < front.len() {
                assert(all[b] == front[b]);
            }
        }
        assert forall|i: int| 0 <= i < scores.len() && scores[i] >= min_score implies exists|k: int|
            0 <= k < all.len() && #[trigger] all[k] == i by {
            if i < scores.len() - 1 {
                assert(front_scores[i] == scores[i]);
                let k = choose|k: int| 0 <= k < front.len() && #[trigger] front[k] == i;
                assert(all[k] == i);
            } else {
                assert(all[all.len() - 1] == i);
            }
        }
    }
}

/// The indices of the detections whose score reaches `min_score`, in input
/// order.
pub fn passing_indices(scores: &Vec<i32>, min_score: i32) -> (mask: Vec<usize>)
    ensures
        mask@ == passing(scores@, min_score),
{
    let mut mask: Vec<usize> = Vec::new();
    let mut i: usize = 0;
    proof {
        assert(scores@.take(0) =~= Seq::<i32>::empty());
    }
    while i < scores.len()
        invariant
            i <= scores.len(),
            mask@ == passing(scores@.take(i as int), min_score),
        decreases scores.len() - i,
    {
        proof {
            assert(scores@.take(i + 1).drop_last() =~= scores@.take(i as int));
        }
        if scores[i] >= min_score {
            mask.push(i);
        }
        i = i + 1;
    }
    proof {
        assert(scores@.take(scores.len() as int) =~= scores@);
    }
    mask
}

/// Keeps the detections whose score reaches `min_score`, in input order.
/// `scores[i]` orders detection `i` (a larger key is a higher score);
/// a box is carried through as it is. The three arrays must agree in
/// length.
pub fn filter_detections_by_score<B: Copy>(
    boxes: &Vec<B>,
    scores: &Vec<i32>,
    class_ids: &Vec<i32>,
    min_score: i32,
) -> (r: Result<(Vec<B>, Vec<i32>, Vec<i32>), KernelError>)
    ensures
        r is Ok <==> boxes.len() == scores.len() && class_ids.len() == scores.len(),
        r matches Ok(kept) ==> kept.0@ == gather(boxes@, passing(scores@, min_score)) && kept.1@ == gather(
            scores@,
            passing(scores@, min_score),
        ) && kept.2@ == gather(class_ids@, passing(scores@, min_score)),
        r matches Err(e) ==> e == KernelError::ShapeMismatch,
{
    if boxes.len() != scores.len() || class_ids.len() != scores.len() {
        return Err(KernelError::ShapeMismatch);
    }
    let mask = passing_indices(scores, min_score);
    proof {
        lemma_passing_exact(scores@, min_score);
    }
    let mut out_b: Vec<B> = Vec::new();
    let mut out_s: Vec<i32> = Vec::new();
    let mut out_c: Vec<i32> = Vec::new();
    let mut k: usize = 0;
    while k < mask.len()
        invariant
            k <= mask.len(),
            boxes.len() == scores.len(),
            class_ids.len() == scores.len(),
            forall|x: int| 0 <= x < mask.len() ==> (#[trigger] mask[x]) < scores.len(),
            out_b@ == gather(boxes@, mask@.take(k as int)),
            out_s@ == gather(scores@, mask@.take(k as int)),
            out_c@ == gather(class_ids@, mask@.take(k as int)),
        decreases mask.len() - k,
    {
        let i: usize = mask[k];
        out_b.push(boxes[i]);
        out_s.push(scores[i]);
        out_c.push(class_ids[i]);
        proof {
            let next = mask@.take(k + 1);
            assert(out_b@ =~= gather(boxes@, next));
            assert(out_s@ =~= gather(scores@, next));
            assert(out_c@ =~= gather(class_ids@, next));
        }
        k = k + 1;
    }
    proof {
        assert(mask@.take(mask.len() as int) =~= mask@);
    }
    Ok((out_b, out_s, out_c))
}

} // verus!
