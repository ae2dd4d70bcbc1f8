use vstd::prelude::*;
use crate::error::KernelError;

verus! {

/// Detection `a` is visited before detection `b`: it scores higher, or the
/// two score the same and `a` comes first in the input.
pub open spec fn ranks_before(scores: Seq<i32>, a: int, b: int) -> bool {
    scores[a] > scores[b] || (scores[a] == scores[b] && a < b)
}

/// Index `i` stands somewhere in `order`.
pub open spec fn occurs(order: Seq<usize>, i: int) -> bool {
    exists|p: int| 0 <= p < order.len() && #[trigger] order[p] == i
}

/// `order` lists every index of `scores` exactly once, by descending score,
/// equal scores by ascending index.
pub open spec fn is_score_order(scores: Seq<i32>, order: Seq<usize>) -> bool {
    &&& order.len() == scores.len()
    &&& forall|p: int| 0 <= p < order.len() ==> (#[trigger] order[p]) < scores.len()
    &&& forall|p: int, q: int|
        0 <= p < q < order.len() ==> ranks_before(scores, #[trigger] order[p] as int, #[trigger] order[q] as int)
    &&& forall|i: int| 0 <= i < scores.len() ==> #[trigger] occurs(order, i)
}

/// The overlap relation as a matrix of plain values.
pub open spec fn matrix_view(m: Seq<Vec<bool>>) -> Seq<Seq<bool>> {
    Seq::new(m.len(), |i: int| m[i]@)
}

/// The matrix is `n` by `n`.
pub open spec fn is_square(ov: Seq<Seq<bool>>, n: int) -> bool {
    ov.len() == n && forall|i: int| 0 <= i < n ==> (#[trigger] ov[i]).len() == n
}

/// Some detection already kept overlaps detection `j` beyond the threshold.
pub open spec fn suppressed_by(ov: Seq<Seq<bool>>, kept: Seq<usize>, j: int) -> bool {
    exists|k: int| 0 <= k < kept.len() && ov[#[trigger] kept[k] as int][j]
}

/// Greedy suppression: walking `order` from its start, a detection is kept
/// exactly when no detection kept before it overlaps it.
pub open spec fn greedy_keep(ov: Seq<Seq<bool>>, order: Seq<usize>) -> Seq<usize>
    decreases order.len(),
{
    if order.len() == 0 {
        Seq::empty()
    } else {
        let prev = greedy_keep(ov, order.drop_last());
        let j = order.last();
        if suppressed_by(ov, prev, j as int) {
            prev
        } else {
            prev.push(j)
        }
    }
}

/// The visiting order of the detections: descending score, ties by input
/// position.
pub fn score_order(scores: &Vec<i32>) -> (order: Vec<usize>)
    ensures
        is_score_order(scores@, order@),
        order@ == score_order_of(scores@),
{
    let n: usize = scores.len();
    let mut order: Vec<usize> = Vec::new();
    let mut i: usize = 0;
    while i < n
        invariant
            n == scores.len(),
            i <= n,
            order.len() == i,
            forall|p: int| 0 <= p < order.len() ==> (#[trigger] order[p]) < i,
            forall|p: int, q: int|
                0 <= p < q < order.len() ==> ranks_before(
                    scores@,
                    #[trigger] order[p] as int,
                    #[trigger] order[q] as int,
                ),
            forall|k: int| 0 <= k < i ==> #[trigger] occurs(order@, k),
        decreases n - i,
    {
        let mut pos: usize = 0;
        while pos < order.len() && scores[order[pos]] >= scores[i]
            invariant
                n == scores.len(),
                i < n,
                order.len() == i,
                pos <= order.len(),
                forall|p: int| 0 <= p < order.len() ==> (#[trigger] order[p]) < i,
                forall|p: int| 0 <= p < pos ==> scores[(#[trigger] order[p]) as int] >= scores[i as int],
            decreases order.len() - pos,
        {
            pos = pos + 1;
        }
        let ghost before = order@;
        order.insert(pos, i);
        proof {
            let after = order@;
            assert(after == before.insert(pos as int, i));
            assert forall|p: int, q: int| 0 <= p < q < after.len() implies ranks_before(
                scores@,
                #[trigger] after[p] as int,
                #[trigger] after[q] as int,
            ) by {
                if q < pos {
                    assert(after[p] == before[p] && after[q] == before[q]);
                } else if q == pos {
                    assert(after[p] == before[p]);
                } else if p < pos {
                    assert(after[p] == before[p] && after[q] == before[q - 1]);
                } else if p == pos {
                    assert(after[q] == before[q - 1]);
                    if q - 1 > pos {
                        assert(ranks_before(scores@, before[pos as int] as int, before[q - 1] as int));
                    }
                } else {
                    assert(after[p] == before[p - 1] && after[q] == before[q - 1]);
                }
            }
            assert forall|k: int| 0 <= k < i + 1 implies #[trigger] occurs(after, k) by {
                if k == i {
                    assert(after[pos as int] == k);
                } else {
                    assert(occurs(before, k));
                    let p0 = choose|p: int| 0 <= p < before.len() && #[trigger] before[p] == k;
                    if p0 < pos {
                        assert(after[p0] == k);
                    } else {
                        assert(after[p0 + 1] == k);
                    }
                }
            }
            assert forall|p: int| 0 <= p < after.len() implies (#[trigger] after[p]) < i + 1 by {
                if p < pos {
                    assert(after[p] == before[p]);
                } else if p > pos {
                    assert(after[p] == before[p - 1]);
                }
            }
        }
        i = i + 1;
    }
    proof {
        lemma_score_order_unique(scores@, order@, order@);
    }
    order
}


/// The visiting order as a function of the scores alone.
pub open spec fn score_order_of(scores: Seq<i32>) -> Seq<usize> {
    choose|order: Seq<usize>| is_score_order(scores, order)
}

/// What suppression keeps: a function of the scores and the overlap
/// relation alone.
pub open spec fn nms_keep(scores: Seq<i32>, ov: Seq<Seq<bool>>) -> Seq<usize> {
    greedy_keep(ov, score_order_of(scores))
}

/// One past the last of the first `n` places of `order` whose score
/// reaches `key`.
pub open spec fn insert_place(scores: Seq<i32>, order: Seq<usize>, key: i32, n: nat) -> nat
    decreases n,
{
    if n == 0 {
        0
    } else if scores[order[n - 1] as int] >= key {
        n
    } else {
        insert_place(scores, order, key, (n - 1) as nat)
    }
}

proof fn lemma_insert_place(scores: Seq<i32>, order: Seq<usize>, key: i32, n: nat)
    requires
        n <= order.len(),
        forall|p: int, q: int|
            0 <= p < q < order.len() ==> ranks_before(scores, #[trigger] order[p] as int, #[trigger] order[q] as int),
    ensures
        insert_place(scores, order, key, n) <= n,
        forall|p: int| 0 <= p < insert_place(scores, order, key, n) ==> scores[#[trigger] order[p] as int] >= key,
        forall|p: int| insert_place(scores, order, key, n) <= p < n ==> scores[#[trigger] order[p] as int] < key,
    decreases n,
{
    if n > 0 {
        if scores[order[n - 1] as int] >= key {
            assert forall|p: int| 0 <= p < n implies scores[#[trigger] order[p] as int] >= key by {
                if p < n - 1 {
                    assert(ranks_before(scores, order[p] as int, order[n - 1] as int));
                }
            }
        } else {
            lemma_insert_place(scores, order, key, (n - 1) as nat);
        }
    }
}

/// Every array of scores has a visiting order.
pub proof fn lemma_score_order_exists(scores: Seq<i32>)
    requires
        scores.len() <= usize::MAX,
    ensures
        is_score_order(scores, score_order_of(scores)),
    decreases scores.len(),
{
    if scores.len() == 0 {
        assert(is_score_order(scores, Seq::<usize>::empty()));
    } else {
        let front = scores.drop_last();
        lemma_score_order_exists(front);
        let before = score_order_of(front);
        let i = (scores.len() - 1) as usize;
        assert forall|p: int, q: int| 0 <= p < q < before.len() implies ranks_before(
            scores,
            #[trigger] before[p] as int,
            #[trigger] before[q] as int,
        ) by {
            assert(ranks_before(front, before[p] as int, before[q] as int));
        }
        lemma_insert_place(scores, before, scores[i as int], before.len());
        let pos = insert_place(scores, before, scores[i as int], before.len()) as int;
        let after = before.insert(pos, i);
        assert forall|p: int, q: int| 0 <= p < q < after.len() implies ranks_before(
            scores,
            #[trigger] after[p] as int,
            #[trigger] after[q] as int,
        ) by {
            if q < pos {
                assert(after[p] == before[p] && after[q] == before[q]);
            } else if q == pos {
                assert(after[p] == before[p]);
            } else if p < pos {
                assert(after[p] == before[p] && after[q] == before[q - 1]);
            } else if p == pos {
                assert(after[q] == before[q - 1]);
            } else {
                assert(after[p] == before[p - 1] && after[q] == before[q - 1]);
            }
        }
        assert forall|k: int| 0 <= k < scores.len() implies #[trigger] occurs(after, k) by {
            if k == i {
                assert(after[pos] == k);
            } else {
                assert(occurs(before, k));
                let p0 = choose|p: int| 0 <= p < before.len() && #[trigger] before[p] == k;
                if p0 < pos {
                    assert(after[p0] == k);
                } else {
                    assert(after[p0 + 1] == k);
                }
            }
        }
        assert forall|p: int| 0 <= p < after.len() implies (#[trigger] after[p]) < scores.len() by {
            if p < pos {
                assert(after[p] == before[p]);
            } else if p > pos {
                assert(after[p] == before[p - 1]);
            }
        }
        assert(is_score_order(scores, after));
    }
}

proof fn lemma_prefix_agree(scores: Seq<i32>, a: Seq<usize>, b: Seq<usize>, k: nat)
    requires
        is_score_order(scores, a),
        is_score_order(scores, b),
        k <= scores.len(),
    ensures
        forall|p: int| 0 <= p < k ==> a[p] == b[p],
    decreases k,
{
    if k > 0 {
        lemma_prefix_agree(scores, a, b, (k - 1) as nat);
        let x = a[k - 1];
        let y = b[k - 1];
        if x != y {
            assert(occurs(b, x as int));
            let q = choose|q: int| 0 <= q < b.len() && #[trigger] b[q] == x as int;
            assert(occurs(a, y as int));
            let r = choose|r: int| 0 <= r < a.len() && #[trigger] a[r] == y as int;
            if q < k - 1 {
                assert(ranks_before(scores, a[q] as int, a[k - 1] as int));
            }
            if r < k - 1 {
                assert(ranks_before(scores, b[r] as int, b[k - 1] as int));
            }
            assert(ranks_before(scores, b[k - 1] as int, b[q] as int));
            assert(ranks_before(scores, a[k - 1] as int, a[r] as int));
        }
    }
}

/// There is exactly one visiting order for given scores, so suppression is
/// a function of its input: the same input always gives the same result.
pub proof fn lemma_score_order_unique(scores: Seq<i32>, a: Seq<usize>, b: Seq<usize>)
    requires
        is_score_order(scores, a),
        is_score_order(scores, b),
    ensures
        a == b,
        a == score_order_of(scores),
{
    lemma_prefix_agree(scores, a, b, scores.len());
    assert(a =~= b);
    lemma_prefix_agree(scores, a, score_order_of(scores), scores.len());
    assert(a =~= score_order_of(scores));
}

proof fn lemma_suppressed_push(ov: Seq<Seq<bool>>, kept: Seq<usize>, i: usize, j: int)
    ensures
        suppressed_by(ov, kept.push(i), j) == (suppressed_by(ov, kept, j) || ov[i as int][j]),
{
    let more = kept.push(i);
    if suppressed_by(ov, more, j) {
        let k = choose|k: int| 0 <= k < more.len() && ov[#[trigger] more[k] as int][j];
        if k < kept.len() {
            assert(ov[kept[k] as int][j]);
        }
    }
    if suppressed_by(ov, kept, j) {
        let k = choose|k: int| 0 <= k < kept.len() && ov[#[trigger] kept[k] as int][j];
        assert(ov[more[k] as int][j]);
    }
    if ov[i as int][j] {
        assert(ov[more[kept.len() as int] as int][j]);
    }
}

/// Greedy suppression along a given visiting order: a detection is kept
/// when none kept before it overlaps it, and it then suppresses every later
/// detection that it overlaps.
pub fn suppress(order: &Vec<usize>, overlaps: &Vec<Vec<bool>>) -> (keep: Vec<usize>)
    requires
        is_square(matrix_view(overlaps@), order.len() as int),
        forall|p: int| 0 <= p < order.len() ==> (#[trigger] order[p]) < order.len(),
        forall|p: int, q: int| 0 <= p < q < order.len() ==> (#[trigger] order[p]) != (#[trigger] order[q]),
    ensures
        keep@ == greedy_keep(matrix_view(overlaps@), order@),
{
    let n: usize = order.len();
    let ghost ov = matrix_view(overlaps@);
    let mut suppressed: Vec<bool> = Vec::new();
    let mut t: usize = 0;
    while t < n
        invariant
            t <= n,
            suppressed.len() == t,
            forall|x: int| 0 <= x < t ==> !(#[trigger] suppressed[x]),
        decreases n - t,
    {
        suppressed.push(false);
        t = t + 1;
    }
    let mut keep: Vec<usize> = Vec::new();
    let mut p: usize = 0;
    proof {
        assert(order@.take(0) =~= Seq::<usize>::empty());
    }
    while p < n
        invariant
            n == order.len(),
            p <= n,
            ov == matrix_view(overlaps@),
            is_square(ov, n as int),
            suppressed.len() == n,
            forall|r: int| 0 <= r < n ==> (#[trigger] order[r]) < n,
            forall|r: int, s: int| 0 <= r < s < n ==> (#[trigger] order[r]) != (#[trigger] order[s]),
            keep@ == greedy_keep(ov, order@.take(p as int)),
            forall|r: int|
                p <= r < n ==> suppressed[(#[trigger] order[r]) as int] == suppressed_by(
                    ov,
                    keep@,
                    order[r] as int,
                ),
        decreases n - p,
    {
        let i: usize = order[p];
        proof {
            assert(order@.take(p + 1).drop_last() =~= order@.take(p as int));
            assert(order@.take(p + 1).last() == i);
        }
        if !suppressed[i] {
            let ghost before = keep@;
            keep.push(i);
            let mut q: usize = p + 1;
            while q < n
                invariant
                    n == order.len(),
                    p < q <= n,
                    i == order[p as int],
                    i < n,
                    ov == matrix_view(overlaps@),
                    is_square(ov, n as int),
                    suppressed.len() == n,
                    keep@ == before.push(i),
                    forall|r: int| 0 <= r < n ==> (#[trigger] order[r]) < n,
                    forall|r: int, s: int| 0 <= r < s < n ==> (#[trigger] order[r]) != (#[trigger] order[s]),
                    forall|r: int|
                        p < r < q ==> suppressed[(#[trigger] order[r]) as int] == suppressed_by(
                            ov,
                            keep@,
                            order[r] as int,
                        ),
                    forall|r: int|
                        q <= r < n ==> suppressed[(#[trigger] order[r]) as int] == suppressed_by(
                            ov,
                            before,
                            order[r] as int,
                        ),
                decreases n - q,
            {
                let j: usize = order[q];
                proof {
                    lemma_suppressed_push(ov, before, i, j as int);
                    assert(ov[i as int][j as int] == overlaps@[i as int]@[j as int]);
                }
                if !suppressed[j] && overlaps[i][j] {
                    suppressed.set(j, true);
                }
                q = q + 1;
            }
        }
        p = p + 1;
    }
    proof {
        assert(order@.take(n as int) =~= order@);
    }
    keep
}

/// Whether `overlaps` is a square matrix of side `n`.
pub fn square_of_side(overlaps: &Vec<Vec<bool>>, n: usize) -> (ok: bool)
    ensures
        ok == is_square(matrix_view(overlaps@), n as int),
{
    if overlaps.len() != n {
        return false;
    }
    let mut i: usize = 0;
    while i < n
        invariant
            overlaps.len() == n,
            i <= n,
            forall|r: int| 0 <= r < i ==> (#[trigger] matrix_view(overlaps@)[r]).len() == n,
        decreases n - i,
    {
        if overlaps[i].len() != n {
            assert(matrix_view(overlaps@)[i as int].len() != n);
            return false;
        }
        i = i + 1;
    }
    true
}

/// Non-maximum suppression. `scores[i]` orders detection `i` (a larger key
/// is a higher score) and `overlaps[i][j]` says whether the overlap ratio of
/// detections `i` and `j` exceeds the threshold. Returns the indices kept,
/// in visiting order: descending score, equal scores by input position.
pub fn nms_boxes(scores: &Vec<i32>, overlaps: &Vec<Vec<bool>>) -> (r: Result<Vec<usize>, KernelError>)
    ensures
        r is Ok <==> is_square(matrix_view(overlaps@), scores.len() as int),
        r matches Ok(keep) ==> keep@ == nms_keep(scores@, matrix_view(overlaps@)),
        r matches Err(e) ==> e == KernelError::ShapeMismatch,
{
    if !square_of_side(overlaps, scores.len()) {
        return Err(KernelError::ShapeMismatch);
    }
    let order = score_order(scores);
    proof {
        assert forall|p: int, q: int| 0 <= p < q < order.len() implies (#[trigger] order[p]) != (
        #[trigger] order[q]) by {
            assert(ranks_before(scores@, order[p] as int, order[q] as int));
        }
    }
    let keep = suppress(&order, overlaps);
    Ok(keep)
}

} // verus!
