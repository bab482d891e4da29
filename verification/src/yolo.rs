//! Detection post-processing: ranking by confidence and non-maximum suppression.
//!
//! Confidences are handled through integer keys whose order is the total order of
//! the confidences (`f32::total_cmp`), so NaN confidences rank like any other
//! value instead of breaking the sort. Whether one box suppresses another (their
//! IoU is above the threshold) is handed in as a matrix.

use image::DynamicImage;
use vstd::prelude::*;
use crate::imaging::{
    dimensions, fits_resample, gray_canvas, image_dims, into_bytes, overlaid, overlay, resample_fits,
    resize_bilinear, resized_bilinear, rgb_bytes, rgb_dims, rgb_of, to_rgb8, uniform_bytes,
};
use crate::tensor::{lemma_planar_entry, planar_rgb, planar_spec};

verus! {

/// Candidate `a` comes before candidate `b`: its key is larger, or the keys tie
/// and `a` came first (the sort is stable, descending).
pub open spec fn ranks_before(keys: Seq<i32>, a: int, b: int) -> bool {
    keys[a] > keys[b] || (keys[a] == keys[b] && a < b)
}

/// Every pair in `order` is in ranking order.
pub open spec fn ranked(order: Seq<usize>, keys: Seq<i32>) -> bool {
    forall|p: int, q: int|
        0 <= p < q < order.len() ==> ranks_before(keys, #[trigger] order[p] as int, #[trigger] order[q] as int)
}

/// `order` lists exactly the candidates `0..k`, ranked.
pub open spec fn is_rank_order_of_first(order: Seq<usize>, keys: Seq<i32>, k: int) -> bool {
    &&& order.len() == k
    &&& forall|p: int| 0 <= p < order.len() ==> #[trigger] order[p] < k
    &&& forall|i: usize| i < k ==> #[trigger] order.contains(i)
    &&& ranked(order, keys)
}

/// `order` is the stable descending sort of the candidate positions by key.
pub open spec fn is_rank_order(order: Seq<usize>, keys: Seq<i32>) -> bool {
    &&& keys.len() <= usize::MAX
    &&& is_rank_order_of_first(order, keys, keys.len() as int)
}

/// The ranking of the candidates: the order that a stable sort by descending key gives.
pub open spec fn rank_order(keys: Seq<i32>) -> Seq<usize> {
    choose|order: Seq<usize>| is_rank_order(order, keys)
}

/// Two rankings of the same keys agree position by position up to `p`.
proof fn lemma_rank_orders_agree_upto(o1: Seq<usize>, o2: Seq<usize>, keys: Seq<i32>, p: int)
    requires
        is_rank_order(o1, keys),
        is_rank_order(o2, keys),
        0 <= p < o1.len(),
    ensures
        forall|i: int| 0 <= i <= p ==> o1[i] == o2[i],
    decreases p,
{
    if p > 0 {
        lemma_rank_orders_agree_upto(o1, o2, keys, p - 1);
    }
    let a = o1[p];
    let b = o2[p];
    assert(o2.contains(a));
    assert(o1.contains(b));
    let q = choose|q: int| 0 <= q < o2.len() && o2[q] == a;
    let r = choose|r: int| 0 <= r < o1.len() && o1[r] == b;
    if q < p {
        assert(o1[q] == o2[q]);
        assert(ranks_before(keys, o1[q] as int, o1[p] as int));
    }
    if r < p {
        assert(o1[r] == o2[r]);
        assert(ranks_before(keys, o2[r] as int, o2[p] as int));
    }
    if a != b {
        assert(ranks_before(keys, o2[p] as int, o2[q] as int));
        assert(ranks_before(keys, o1[p] as int, o1[r] as int));
    }
}

/// The ranking is unique: any two rankings of the same keys are equal.
pub proof fn lemma_rank_order_unique(o1: Seq<usize>, o2: Seq<usize>, keys: Seq<i32>)
    requires
        is_rank_order(o1, keys),
        is_rank_order(o2, keys),
    ensures
        o1 == o2,
{
    if o1.len() > 0 {
        lemma_rank_orders_agree_upto(o1, o2, keys, o1.len() - 1);
    }
    assert(o1 =~= o2);
}

/// Inserting candidate `k` into a ranking of `0..k`, after every candidate whose
/// key is at least `keys[k]` and before the others, gives a ranking of `0..k + 1`.
proof fn lemma_insert_ranked(old_order: Seq<usize>, keys: Seq<i32>, k: int, p: int)
    requires
        is_rank_order_of_first(old_order, keys, k),
        0 <= k < keys.len(),
        keys.len() <= usize::MAX,
        0 <= p <= old_order.len(),
        forall|q: int| 0 <= q < p ==> keys[#[trigger] old_order[q] as int] >= keys[k],
        p < old_order.len() ==> keys[old_order[p] as int] < keys[k],
    ensures
        is_rank_order_of_first(old_order.insert(p, k as usize), keys, k + 1),
{
    let order = old_order.insert(p, k as usize);
    old_order.insert_ensures(p, k as usize);
    let n = order.len();
    assert forall|a: int, b: int| 0 <= a < b < n implies
        ranks_before(keys, #[trigger] order[a] as int, #[trigger] order[b] as int) by {
        if b < p {
            assert(order[a] == old_order[a] && order[b] == old_order[b]);
        } else if b == p {
            assert(order[a] == old_order[a]);
            assert(keys[old_order[a] as int] >= keys[k]);
        } else if a < p {
            assert(order[a] == old_order[a] && order[b] == old_order[b - 1]);
        } else if a == p {
            assert(order[b] == old_order[b - 1]);
            assert(keys[k] > keys[old_order[p] as int]);
            if b - 1 > p {
                assert(ranks_before(keys, old_order[p] as int, old_order[b - 1] as int));
            }
        } else {
            assert(order[a] == old_order[a - 1] && order[b] == old_order[b - 1]);
        }
    }
    assert forall|i: usize| i < k + 1 implies #[trigger] order.contains(i) by {
        if i == k {
            assert(order[p] == k);
        } else {
            assert(old_order.contains(i));
            let r = choose|r: int| 0 <= r < old_order.len() && old_order[r] == i;
            if r < p {
                assert(order[r] == i);
            } else {
                assert(order[r + 1] == i);
            }
        }
    }
    assert forall|q: int| 0 <= q < n implies #[trigger] order[q] < k + 1 by {
        if q < p {
            assert(order[q] == old_order[q]);
        } else if q > p {
            assert(order[q] == old_order[q - 1]);
        }
    }
}

/// The place of candidate `k` in a ranking of `0..k`: past the first `p`
/// entries, the end of the run of entries whose key is at least `keys[k]`.
proof fn lemma_insert_position(order: Seq<usize>, keys: Seq<i32>, k: int, p: int) -> (pos: int)
    requires
        is_rank_order_of_first(order, keys, k),
        0 <= k < keys.len(),
        0 <= p <= order.len(),
        forall|q: int| 0 <= q < p ==> keys[#[trigger] order[q] as int] >= keys[k],
    ensures
        p <= pos <= order.len(),
        forall|q: int| 0 <= q < pos ==> keys[#[trigger] order[q] as int] >= keys[k],
        pos < order.len() ==> keys[order[pos] as int] < keys[k],
    decreases order.len() - p,
{
    if p < order.len() && keys[order[p] as int] >= keys[k] {
        lemma_insert_position(order, keys, k, p + 1)
    } else {
        p
    }
}

/// A ranking of the first `k` candidates exists.
proof fn lemma_rank_order_of_first_exists(keys: Seq<i32>, k: int) -> (order: Seq<usize>)
    requires
        0 <= k <= keys.len(),
        keys.len() <= usize::MAX,
    ensures
        is_rank_order_of_first(order, keys, k),
    decreases k,
{
    if k == 0 {
        Seq::empty()
    } else {
        let prev = lemma_rank_order_of_first_exists(keys, k - 1);
        let pos = lemma_insert_position(prev, keys, k - 1, 0);
        lemma_insert_ranked(prev, keys, k - 1, pos);
        prev.insert(pos, (k - 1) as usize)
    }
}

/// Every sequence of keys has its ranking: `rank_order` is one.
pub proof fn lemma_rank_order(keys: Seq<i32>)
    requires
        keys.len() <= usize::MAX,
    ensures
        is_rank_order(rank_order(keys), keys),
{
    let order = lemma_rank_order_of_first_exists(keys, keys.len() as int);
    assert(is_rank_order(order, keys));
}

/// Stable sort of the candidate positions `0..keys.len()` by descending key.
fn rank_positions(keys: &Vec<i32>) -> (order: Vec<usize>)
    ensures
        is_rank_order(order@, keys@),
        order@ == rank_order(keys@),
{
    let mut order: Vec<usize> = Vec::new();
    let mut k: usize = 0;
    while k < keys.len()
        invariant
            k <= keys@.len(),
            is_rank_order_of_first(order@, keys@, k as int),
        decreases keys@.len() - k,
    {
        let mut p: usize = 0;
        while p < order.len() && keys[order[p]] >= keys[k]
            invariant
                k < keys@.len(),
                p <= order@.len(),
                is_rank_order_of_first(order@, keys@, k as int),
                forall|q: int| 0 <= q < p ==> keys@[#[trigger] order@[q] as int] >= keys@[k as int],
            decreases order@.len() - p,
        {
            p = p + 1;
        }
        let ghost old_order = order@;
        order.insert(p, k);
        proof {
            lemma_insert_ranked(old_order, keys@, k as int, p as int);
        }
        k = k + 1;
    }
    proof {
        assert(is_rank_order(order@, keys@));
        lemma_rank_order_unique(order@, rank_order(keys@), keys@);
    }
    order
}


/// The rows of a boolean matrix, as sequences.
pub open spec fn bool_rows(m: Seq<Vec<bool>>) -> Seq<Seq<bool>> {
    m.map_values(|r: Vec<bool>| r@)
}

/// `m` has `n` rows of `n` entries.
pub open spec fn is_square(m: Seq<Seq<bool>>, n: int) -> bool {
    m.len() == n && forall|i: int| 0 <= i < n ==> (#[trigger] m[i]).len() == n
}

/// Candidate `c` overlaps none of the candidates kept so far: `sup[c][k]` says
/// that candidate `c` is suppressed by a kept candidate `k`.
pub open spec fn survives(c: usize, kept: Seq<usize>, sup: Seq<Seq<bool>>) -> bool {
    forall|j: int| 0 <= j < kept.len() ==> !sup[c as int][#[trigger] kept[j] as int]
}

/// Greedy suppression: walk `order` and keep each candidate that no kept one suppresses.
pub open spec fn keep_greedy(order: Seq<usize>, sup: Seq<Seq<bool>>) -> Seq<usize>
    decreases order.len(),
{
    if order.len() == 0 {
        Seq::empty()
    } else {
        let kept = keep_greedy(order.drop_last(), sup);
        if survives(order.last(), kept, sup) {
            kept.push(order.last())
        } else {
            kept
        }
    }
}

/// The keys of the candidates `idx`, in that order.
pub open spec fn restrict_keys(keys: Seq<i32>, idx: Seq<usize>) -> Seq<i32> {
    Seq::new(idx.len(), |p: int| keys[idx[p] as int])
}

/// The suppression matrix among the candidates `idx`, in that order.
pub open spec fn restrict_matrix(sup: Seq<Seq<bool>>, idx: Seq<usize>) -> Seq<Seq<bool>> {
    Seq::new(idx.len(), |a: int| Seq::new(idx.len(), |b: int| sup[idx[a] as int][idx[b] as int]))
}

/// The positions `0..n` in order.
pub open spec fn positions(n: nat) -> Seq<usize> {
    Seq::new(n, |p: int| p as usize)
}

/// What non-maximum suppression keeps: the greedy pass over the ranking.
pub open spec fn nms_kept(keys: Seq<i32>, sup: Seq<Seq<bool>>) -> Seq<usize> {
    keep_greedy(rank_order(keys), sup)
}

/// What the greedy pass keeps of a ranked sequence of candidates: members of the
/// sequence, ranked, not suppressing each other, every dropped candidate
/// suppressed by a kept one ranked above it, and the first candidate kept first.
proof fn lemma_keep_greedy(order: Seq<usize>, keys: Seq<i32>, sup: Seq<Seq<bool>>)
    requires
        ranked(order, keys),
        forall|p: int| 0 <= p < order.len() ==> #[trigger] order[p] < keys.len(),
        is_square(sup, keys.len() as int),
    ensures
        ({
            let kept = keep_greedy(order, sup);
            &&& forall|j: int| 0 <= j < kept.len() ==> order.contains(#[trigger] kept[j])
            &&& ranked(kept, keys)
            &&& forall|p: int, q: int|
                0 <= p < q < kept.len() ==> !sup[#[trigger] kept[q] as int][#[trigger] kept[p] as int]
            &&& forall|t: int|
                0 <= t < order.len() ==> kept.contains(#[trigger] order[t]) || exists|j: int|
                    0 <= j < kept.len() && sup[order[t] as int][kept[j] as int] && ranks_before(
                        keys,
                        kept[j] as int,
                        order[t] as int,
                    )
            &&& order.len() > 0 ==> kept.len() > 0 && kept[0] == order[0]
            &&& kept.len() <= order.len()
        }),
    decreases order.len(),
{
    if order.len() > 0 {
        let prev = order.drop_last();
        let c = order.last();
        let n = order.len() - 1;
        assert(ranked(prev, keys)) by {
            assert forall|p: int, q: int| 0 <= p < q < prev.len() implies
                ranks_before(keys, #[trigger] prev[p] as int, #[trigger] prev[q] as int) by {
                assert(prev[p] == order[p] && prev[q] == order[q]);
            }
        }
        assert forall|p: int| 0 <= p < prev.len() implies #[trigger] prev[p] < keys.len() by {
            assert(prev[p] == order[p]);
        }
        lemma_keep_greedy(prev, keys, sup);
        let k0 = keep_greedy(prev, sup);
        let kept = keep_greedy(order, sup);
        // members of `k0` sit in `order` before its last position
        assert forall|j: int| 0 <= j < k0.len() implies exists|r: int|
            0 <= r < n && #[trigger] order[r] == #[trigger] k0[j] by {
            assert(prev.contains(k0[j]));
            let r = choose|r: int| 0 <= r < prev.len() && prev[r] == k0[j];
            assert(order[r] == k0[j]);
        }
        if survives(c, k0, sup) {
            assert(kept == k0.push(c));
            assert forall|j: int| 0 <= j < kept.len() implies order.contains(#[trigger] kept[j]) by {
                if j < k0.len() {
                    let r = choose|r: int| 0 <= r < n && #[trigger] order[r] == k0[j];
                    assert(order[r] == kept[j]);
                } else {
                    assert(order[n] == kept[j]);
                }
            }
            assert forall|p: int, q: int| 0 <= p < q < kept.len() implies
                ranks_before(keys, #[trigger] kept[p] as int, #[trigger] kept[q] as int) by {
                if q < k0.len() {
                    assert(kept[p] == k0[p] && kept[q] == k0[q]);
                } else {
                    let r = choose|r: int| 0 <= r < n && #[trigger] order[r] == k0[p];
                    assert(kept[p] == order[r] && kept[q] == order[n]);
                }
            }
            assert forall|p: int, q: int| 0 <= p < q < kept.len() implies
                !sup[#[trigger] kept[q] as int][#[trigger] kept[p] as int] by {
                if q < k0.len() {
                    assert(kept[p] == k0[p] && kept[q] == k0[q]);
                } else {
                    assert(kept[p] == k0[p]);
                }
            }
            assert forall|t: int| 0 <= t < order.len() implies kept.contains(#[trigger] order[t])
                || exists|j: int|
                0 <= j < kept.len() && sup[order[t] as int][kept[j] as int] && ranks_before(
                    keys,
                    kept[j] as int,
                    order[t] as int,
                ) by {
                if t == n {
                    assert(kept[k0.len() as int] == order[t]);
                } else {
                    assert(order[t] == prev[t]);
                    if k0.contains(prev[t]) {
                        let j = choose|j: int| 0 <= j < k0.len() && k0[j] == prev[t];
                        assert(kept[j] == order[t]);
                    } else {
                        let j = choose|j: int|
                            0 <= j < k0.len() && sup[prev[t] as int][k0[j] as int] && ranks_before(
                                keys,
                                k0[j] as int,
                                prev[t] as int,
                            );
                        assert(kept[j] == k0[j]);
                    }
                }
            }
            if n > 0 {
                assert(prev[0] == order[0]);
            }
        } else {
            assert(kept == k0);
            assert forall|j: int| 0 <= j < kept.len() implies order.contains(#[trigger] kept[j]) by {
                let r = choose|r: int| 0 <= r < n && #[trigger] order[r] == k0[j];
                assert(order[r] == kept[j]);
            }
            assert forall|t: int| 0 <= t < order.len() implies kept.contains(#[trigger] order[t])
                || exists|j: int|
                0 <= j < kept.len() && sup[order[t] as int][kept[j] as int] && ranks_before(
                    keys,
                    kept[j] as int,
                    order[t] as int,
                ) by {
                if t == n {
                    let j = choose|j: int| 0 <= j < k0.len() && sup[c as int][#[trigger] k0[j] as int];
                    let r = choose|r: int| 0 <= r < n && #[trigger] order[r] == k0[j];
                    assert(ranks_before(keys, order[r] as int, order[n] as int));
                } else {
                    assert(order[t] == prev[t]);
                }
            }
            if n == 0 {
                assert(survives(c, k0, sup));
            } else {
                assert(prev[0] == order[0]);
            }
        }
    }
}

proof fn lemma_keep_all(sup: Seq<Seq<bool>>, k: nat)
    requires
        k <= usize::MAX,
        forall|p: int, q: int| 0 <= p < q < k ==> !sup[q][p],
    ensures
        keep_greedy(positions(k), sup) == positions(k),
    decreases k,
{
    if k > 0 {
        let prev = (k - 1) as nat;
        assert(positions(k).drop_last() =~= positions(prev));
        lemma_keep_all(sup, prev);
        assert(survives(positions(k).last(), positions(prev), sup));
        assert(positions(prev).push((k - 1) as usize) =~= positions(k));
    }
}

/// Suppression is idempotent: running it again on what it kept (their keys and
/// the suppression matrix among them, in the kept order) keeps everything, in
/// the same order.
pub proof fn lemma_nms_idempotent(keys: Seq<i32>, sup: Seq<Seq<bool>>, kept: Seq<usize>)
    requires
        kept.len() <= usize::MAX,
        forall|p: int| 0 <= p < kept.len() ==> #[trigger] kept[p] < keys.len(),
        ranked(kept, keys),
        forall|p: int, q: int| 0 <= p < q < kept.len() ==> !sup[#[trigger] kept[q] as int][#[trigger] kept[p] as int],
    ensures
        nms_kept(restrict_keys(keys, kept), restrict_matrix(sup, kept)) == positions(kept.len()),
{
    let m = kept.len();
    let k2 = restrict_keys(keys, kept);
    let s2 = restrict_matrix(sup, kept);
    let ids = positions(m);
    assert forall|p: int, q: int| 0 <= p < q < ids.len() implies
        ranks_before(k2, #[trigger] ids[p] as int, #[trigger] ids[q] as int) by {
        assert(ranks_before(keys, kept[p] as int, kept[q] as int));
    }
    assert forall|i: usize| i < m implies #[trigger] ids.contains(i) by {
        assert(ids[i as int] == i);
    }
    assert(is_rank_order(ids, k2));
    lemma_rank_order_unique(ids, rank_order(k2), k2);
    assert forall|p: int, q: int| 0 <= p < q < m implies !s2[q][p] by {
        assert(!sup[kept[q] as int][kept[p] as int]);
    }
    lemma_keep_all(s2, m);
}

/// What non-maximum suppression keeps, for every set of keys and every square
/// suppression matrix: candidates, none twice, in descending confidence order,
/// none suppressed by one kept before it; every dropped candidate is suppressed
/// by a kept one that ranks above it; the most confident candidate is kept first.
pub proof fn lemma_nms_kept(keys: Seq<i32>, sup: Seq<Seq<bool>>)
    requires
        keys.len() <= usize::MAX,
        is_square(sup, keys.len() as int),
    ensures
        ({
            let kept = nms_kept(keys, sup);
            &&& forall|p: int| 0 <= p < kept.len() ==> #[trigger] kept[p] < keys.len()
            &&& forall|p: int, q: int| 0 <= p < q < kept.len() ==> #[trigger] kept[p] != #[trigger] kept[q]
            &&& kept.len() <= keys.len()
            &&& ranked(kept, keys)
            &&& forall|p: int, q: int| 0 <= p < q < kept.len() ==> !sup[#[trigger] kept[q] as int][#[trigger] kept[p] as int]
            &&& forall|i: usize|
                i < keys.len() ==> kept.contains(i) || exists|j: int|
                    0 <= j < kept.len() && sup[i as int][kept[j] as int] && ranks_before(keys, kept[j] as int, i as int)
            &&& keys.len() > 0 ==> kept.len() > 0 && forall|i: int|
                0 <= i < keys.len() && i != kept[0] ==> ranks_before(keys, kept[0] as int, i)
        }),
{
    let order = rank_order(keys);
    lemma_rank_order(keys);
    let kept = nms_kept(keys, sup);
    lemma_keep_greedy(order, keys, sup);
    assert forall|p: int| 0 <= p < kept.len() implies #[trigger] kept[p] < keys.len() by {
        assert(order.contains(kept[p]));
    }
    assert forall|p: int, q: int| 0 <= p < q < kept.len() implies #[trigger] kept[p] != #[trigger] kept[q] by {
        assert(ranks_before(keys, kept[p] as int, kept[q] as int));
    }
    assert forall|i: usize| i < keys.len() implies kept.contains(i) || exists|j: int|
        0 <= j < kept.len() && sup[i as int][kept[j] as int] && ranks_before(keys, kept[j] as int, i as int) by {
        assert(order.contains(i));
        let r = choose|r: int| 0 <= r < order.len() && order[r] == i;
        assert(order[r] == i);
    }
    if keys.len() > 0 {
        assert forall|i: int| 0 <= i < keys.len() && i != kept[0] implies ranks_before(keys, kept[0] as int, i) by {
            assert(order.contains(i as usize));
            let r = choose|r: int| 0 <= r < order.len() && order[r] == i as usize;
            assert(r != 0);
            assert(ranks_before(keys, order[0] as int, order[r] as int));
        }
    }
}

/// Non-maximum suppression over candidates `0..keys.len()`.
///
/// `keys[i]` orders candidate `i` by confidence (larger is more confident, as
/// `f32::total_cmp` orders confidences); `suppress[a][b]` says that candidate `a`
/// is dropped when candidate `b` is already kept (their IoU exceeds the threshold).
/// Candidates are sorted by descending confidence, ties kept in input order, and
/// each is kept unless a kept candidate suppresses it. The kept candidates come
/// back in that order.
pub fn nms(keys: &Vec<i32>, suppress: &Vec<Vec<bool>>) -> (kept: Vec<usize>)
    requires
        is_square(bool_rows(suppress@), keys@.len() as int),
    ensures
        kept@ == nms_kept(keys@, bool_rows(suppress@)),
        // every kept index names a candidate, none twice
        forall|p: int| 0 <= p < kept@.len() ==> #[trigger] kept@[p] < keys@.len(),
        forall|p: int, q: int| 0 <= p < q < kept@.len() ==> #[trigger] kept@[p] != #[trigger] kept@[q],
        kept@.len() <= keys@.len(),
        // the kept candidates are in descending confidence order
        ranked(kept@, keys@),
        // no kept candidate is suppressed by one kept before it
        forall|p: int, q: int|
            0 <= p < q < kept@.len() ==> !bool_rows(suppress@)[#[trigger] kept@[q] as int][#[trigger] kept@[p] as int],
        // every dropped candidate is suppressed by a kept one of higher rank
        forall|i: usize|
            i < keys@.len() ==> kept@.contains(i) || exists|j: int|
                0 <= j < kept@.len() && bool_rows(suppress@)[i as int][kept@[j] as int]
                    && ranks_before(keys@, kept@[j] as int, i as int),
        // the most confident candidate is kept, first
        keys@.len() > 0 ==> kept@.len() > 0 && forall|i: int|
            0 <= i < keys@.len() && i != kept@[0] ==> ranks_before(keys@, kept@[0] as int, i),
        // running it again on what it kept keeps everything
        nms_kept(restrict_keys(keys@, kept@), restrict_matrix(bool_rows(suppress@), kept@)) == positions(
            kept@.len(),
        ),
{
    let ghost sup = bool_rows(suppress@);
    let order = rank_positions(keys);
    let mut kept: Vec<usize> = Vec::new();
    let mut t: usize = 0;
    while t < order.len()
        invariant
            t <= order@.len(),
            is_rank_order(order@, keys@),
            sup == bool_rows(suppress@),
            is_square(sup, keys@.len() as int),
            kept@ == keep_greedy(order@.take(t as int), sup),
            forall|j: int| 0 <= j < kept@.len() ==> #[trigger] kept@[j] < keys@.len(),
        decreases order@.len() - t,
    {
        let c = order[t];
        let mut ok = true;
        let mut j: usize = 0;
        while j < kept.len()
            invariant
                j <= kept@.len(),
                c < keys@.len(),
                sup == bool_rows(suppress@),
                is_square(sup, keys@.len() as int),
                forall|jj: int| 0 <= jj < kept@.len() ==> #[trigger] kept@[jj] < keys@.len(),
                ok == forall|jj: int| 0 <= jj < j ==> !sup[c as int][#[trigger] kept@[jj] as int],
            decreases kept@.len() - j,
        {
            assert(sup[c as int] == suppress@[c as int]@);
            if suppress[c][kept[j]] {
                ok = false;
            }
            j = j + 1;
        }
        assert(order@.take(t + 1).drop_last() =~= order@.take(t as int));
        if ok {
            kept.push(c);
        }
        t = t + 1;
    }
    let kept_len = kept.len();
    proof {
        assert(kept_len == kept@.len());
        assert(order@.take(order@.len() as int) =~= order@);
        lemma_nms_kept(keys@, sup);
        lemma_nms_idempotent(keys@, sup, kept@);
    }
    kept
}

/// Gray level of the letterbox border.
pub const LETTERBOX_GRAY: u8 = 114;

/// The letterbox canvas: a `side` by `side` gray buffer with the RGB bytes `top`
/// of a `tw` by `th` image drawn at (`pad_x`, `pad_y`).
pub open spec fn letterbox_canvas(top: Seq<u8>, tw: u32, th: u32, pad_x: u32, pad_y: u32, side: u32) -> Seq<u8> {
    overlaid(uniform_bytes(side, side, LETTERBOX_GRAY), side, side, top, tw, th, pad_x, pad_y)
}

/// The YOLO input of `img`: the channel planes of the letterbox canvas holding
/// `img` scaled to `new_width` by `new_height`.
pub open spec fn letterbox_input(
    img: DynamicImage,
    new_width: u32,
    new_height: u32,
    pad_x: u32,
    pad_y: u32,
    side: u32,
) -> Seq<u8> {
    planar_spec(
        letterbox_canvas(
            rgb_bytes(rgb_of(resized_bilinear(img, new_width, new_height))),
            new_width,
            new_height,
            pad_x,
            pad_y,
            side,
        ),
        side * side,
    )
}

/// Letterboxes `img` into a `side` by `side` square: scales it to `new_width` by
/// `new_height` (bilinear), places it with its corner at (`pad_x`, `pad_y`) on a
/// gray canvas, and returns the canvas bytes in channel planes (all red, then
/// green, then blue; rows top to bottom). `None` when the source is too wide to
/// resample to that height (only possible where `usize` has 32 bits).
pub fn letterbox_planes(
    img: &DynamicImage,
    new_width: u32,
    new_height: u32,
    pad_x: u32,
    pad_y: u32,
    side: u32,
) -> (out: Option<Vec<u8>>)
    requires
        new_width * new_height * 4 <= usize::MAX,
        side * side * 3 <= usize::MAX,
    ensures
        out is None <==> !fits_resample(image_dims(*img).0, new_height),
        out matches Some(planes) ==> {
            &&& planes@ == letterbox_input(*img, new_width, new_height, pad_x, pad_y, side)
            &&& planes@.len() == 3 * side * side
            // channel c of canvas pixel (x, y): the resized image's byte inside the
            // rectangle placed at (pad_x, pad_y), the border gray elsewhere
            &&& forall|c: int, y: int, x: int| 0 <= c < 3 && 0 <= y < side && 0 <= x < side ==>
                #[trigger] planes@[c * (side * side) + y * side + x] == if pad_x <= x < pad_x + new_width
                && pad_y <= y < pad_y + new_height {
                rgb_bytes(rgb_of(resized_bilinear(*img, new_width, new_height)))[((y - pad_y) * new_width + (x
                    - pad_x)) * 3 + c]
            } else {
                LETTERBOX_GRAY
            }
        },
{
    let dims = dimensions(img);
    if !resample_fits(dims.0, new_height) {
        return None;
    }
    let resized = resize_bilinear(img, new_width, new_height);
    let rgb = to_rgb8(&resized);
    let mut canvas = gray_canvas(side, side, LETTERBOX_GRAY);
    overlay(&mut canvas, &rgb, pad_x, pad_y);
    let raw = into_bytes(canvas);
    proof {
        assert(side * side * 3 == 3 * (side * side) && 3 * side * side == 3 * (side * side)) by (nonlinear_arith);
        assert(rgb_dims(rgb) == (new_width, new_height));
        assert(raw@ == letterbox_canvas(rgb_bytes(rgb), new_width, new_height, pad_x, pad_y, side));
    }
    let pixels: usize = (side as usize) * (side as usize);
    let planes = planar_rgb(&raw, pixels);
    assert(planes@ == letterbox_input(*img, new_width, new_height, pad_x, pad_y, side));
    proof {
        let top = rgb_bytes(rgb_of(resized_bilinear(*img, new_width, new_height)));
        assert forall|c: int, y: int, x: int| 0 <= c < 3 && 0 <= y < side && 0 <= x < side implies
            #[trigger] planes@[c * (side * side) + y * side + x] == if pad_x <= x < pad_x + new_width && pad_y <= y
            < pad_y + new_height {
            top[((y - pad_y) * new_width + (x - pad_x)) * 3 + c]
        } else {
            LETTERBOX_GRAY
        } by {
            lemma_letterbox_entry(top, new_width, new_height, pad_x, pad_y, side, c, x, y);
        }
    }
    Some(planes)
}

/// Entry by entry: channel `c` of canvas pixel (`x`, `y`) is the matching byte
/// of the scaled image inside the placed rectangle and the border gray elsewhere.
pub proof fn lemma_letterbox_entry(top: Seq<u8>, tw: u32, th: u32, pad_x: u32, pad_y: u32, side: u32, c: int, x: int, y: int)
    requires
        0 <= c < 3,
        0 <= x < side,
        0 <= y < side,
    ensures
        ({
            let n = side * side;
            let planes = planar_spec(letterbox_canvas(top, tw, th, pad_x, pad_y, side), n);
            &&& c * n + y * side + x < planes.len()
            &&& planes[c * n + y * side + x] == if pad_x <= x < pad_x + tw && pad_y <= y < pad_y + th {
                top[((y - pad_y) * tw + (x - pad_x)) * 3 + c]
            } else {
                LETTERBOX_GRAY
            }
        }),
{
    let n = side * side;
    let p = y * side + x;
    assert(0 <= p < n) by (nonlinear_arith)
        requires
            0 <= x < side,
            0 <= y < side,
            p == y * side + x,
            n == side * side,
    ;
    lemma_planar_entry(letterbox_canvas(top, tw, th, pad_x, pad_y, side), n, c, p);
    let i = 3 * p + c;
    vstd::arithmetic::div_mod::lemma_fundamental_div_mod_converse(i, 3, p, c);
    vstd::arithmetic::div_mod::lemma_fundamental_div_mod_converse(p, side as int, y, x);
    assert(i < side * side * 3) by (nonlinear_arith)
        requires
            0 <= p < n,
            n == side * side,
            i == 3 * p + c,
            0 <= c < 3,
    ;
    assert(uniform_bytes(side, side, LETTERBOX_GRAY).len() == side * side * 3);
}

} // verus!
