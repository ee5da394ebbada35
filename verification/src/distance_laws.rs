//! What distances, bounds and nearest vectors amount to, component by
//! component.

use crate::cluster_laws::{lemma_total_push, total};
use crate::dataset::Dataset;
use crate::distance::{box_dist, box_dist_over, sq_dist, sq_dist_over};
use vstd::prelude::*;

verus! {

/// The squares of the differences of two vectors in the first `n` dimensions.
pub open spec fn squares(a: Seq<i16>, b: Seq<i16>, n: nat) -> Seq<int> {
    Seq::new(n, |d: int| (a[d] - b[d]) * (a[d] - b[d]))
}

/// How far `x` exceeds zero.
pub open spec fn above_zero(x: int) -> int {
    if x > 0 {
        x
    } else {
        0
    }
}

/// The squares of how far a point lies above the upper corner of a box, and
/// below the lower one, in the first `n` dimensions.
pub open spec fn overhangs(q: Seq<i16>, lo: Seq<i16>, hi: Seq<i16>, n: nat) -> Seq<int> {
    Seq::new(
        n,
        |d: int|
            above_zero(q[d] - hi[d]) * above_zero(q[d] - hi[d]) + above_zero(lo[d] - q[d])
                * above_zero(lo[d] - q[d]),
    )
}

proof fn lemma_squares(a: Seq<i16>, b: Seq<i16>, n: nat)
    ensures
        sq_dist_over(a, b, n) == total(squares(a, b, n)),
    decreases n,
{
    if n > 0 {
        let m = (n - 1) as nat;
        lemma_squares(a, b, m);
        let x = (a[n - 1] - b[n - 1]) * (a[n - 1] - b[n - 1]);
        assert(squares(a, b, n) =~= squares(a, b, m).push(x));
        lemma_total_push(squares(a, b, m), x);
    } else {
        assert(squares(a, b, n) =~= Seq::<int>::empty());
    }
}

proof fn lemma_overhangs(q: Seq<i16>, lo: Seq<i16>, hi: Seq<i16>, n: nat)
    ensures
        box_dist_over(q, lo, hi, n) == total(overhangs(q, lo, hi, n)),
    decreases n,
{
    if n > 0 {
        let m = (n - 1) as nat;
        let d = n - 1;
        lemma_overhangs(q, lo, hi, m);
        let x = above_zero(q[d] - hi[d]) * above_zero(q[d] - hi[d]) + above_zero(lo[d] - q[d])
            * above_zero(lo[d] - q[d]);
        assert(overhangs(q, lo, hi, n) =~= overhangs(q, lo, hi, m).push(x));
        lemma_total_push(overhangs(q, lo, hi, m), x);
    } else {
        assert(overhangs(q, lo, hi, n) =~= Seq::<int>::empty());
    }
}

/// The squared distance of two vectors is the sum of the squares of their
/// differences in all fourteen dimensions.
pub proof fn law_distance_is_sum_of_squares(a: Seq<i16>, b: Seq<i16>)
    ensures
        sq_dist(a, b) == total(squares(a, b, 14)),
{
    lemma_squares(a, b, 14);
}

/// The squared distance of a point from a box is the sum over all fourteen
/// dimensions of the squares of how far it lies beyond the corners.
pub proof fn law_box_distance_is_sum_of_squares(q: Seq<i16>, lo: Seq<i16>, hi: Seq<i16>)
    ensures
        box_dist(q, lo, hi) == total(overhangs(q, lo, hi, 14)),
{
    lemma_overhangs(q, lo, hi, 14);
}

proof fn lemma_update_over(a: Seq<i16>, b: Seq<i16>, d: int, x: i16, n: nat)
    requires
        0 <= d < a.len(),
        n <= a.len(),
    ensures
        sq_dist_over(a.update(d, x), b, n) == sq_dist_over(a, b, n) + if d < n {
            (x - b[d]) * (x - b[d]) - (a[d] - b[d]) * (a[d] - b[d])
        } else {
            0int
        },
    decreases n,
{
    if n > 0 {
        lemma_update_over(a, b, d, x, (n - 1) as nat);
    }
}

/// Moving a vector in one dimension changes its squared distance by what that
/// dimension contributes, whatever the other components are.
pub proof fn law_dimensions_contribute_alike(a: Seq<i16>, b: Seq<i16>, d: int, x: i16)
    requires
        a.len() == 14,
        0 <= d < 14,
    ensures
        sq_dist(a.update(d, x), b) - sq_dist(a, b) == (x - b[d]) * (x - b[d]) - (a[d] - b[d]) * (
        a[d] - b[d]),
{
    lemma_update_over(a, b, d, x, 14);
}

/// The lower bound of a cell is beyond everything where the cell is empty, the
/// distance of its centroid where there are no boxes, and that of its box
/// otherwise.
pub proof fn law_lower_bound_cases(ds: &Dataset, q: Seq<i16>, c: int)
    ensures
        ds.cell_meta@[c].1 == 0 ==> ds.bound_of(q, c) == i64::MAX,
        ds.cell_meta@[c].1 > 0 && ds.bbox_min@.len() == 0 ==> ds.bound_of(q, c) == sq_dist(
            q,
            ds.centroids@[c]@,
        ),
        ds.cell_meta@[c].1 > 0 && ds.bbox_min@.len() > 0 ==> ds.bound_of(q, c) == total(
            overhangs(q, ds.bbox_min@[c]@, ds.bbox_max@[c]@, 14),
        ),
{
    lemma_overhangs(q, ds.bbox_min@[c]@, ds.bbox_max@[c]@, 14);
}

/// The components of a vector stand one count of vectors apart.
pub proof fn law_vector_components(ds: &Dataset, i: int, d: int)
    requires
        0 <= d < 14,
    ensures
        ds.vector(i).len() == 14,
        ds.vector(i)[d] == ds.dims@[d * ds.count + i],
{
}

/// The `k` nearest vectors are `k` different ones, or all of them; none that is
/// left out is nearer than one of them, they come nearest first, and of two at
/// the same distance the one of lower number comes first.
pub proof fn law_knn(ds: &Dataset, q: Seq<i16>, k: nat, indices: Seq<usize>)
    requires
        ds.is_knn(q, k, indices),
    ensures
        indices.len() == k || indices.len() == ds.count && ds.count < k,
        indices.no_duplicates(),
        forall|j: int| 0 <= j < indices.len() ==> #[trigger] indices[j] < ds.count,
        forall|i: int, j: int|
            0 <= i < j < indices.len() ==> {
                let a = sq_dist(q, ds.vector(#[trigger] indices[i] as int));
                let b = sq_dist(q, ds.vector(#[trigger] indices[j] as int));
                a < b || a == b && indices[i] < indices[j]
            },
        forall|t: usize, j: int|
            #![trigger indices.contains(t), indices[j]]
            t < ds.count && !indices.contains(t) && 0 <= j < indices.len() ==> {
                let a = sq_dist(q, ds.vector(indices[j] as int));
                let b = sq_dist(q, ds.vector(t as int));
                a < b || a == b && indices[j] < t
            },
{
    assert forall|i: int, j: int| 0 <= i < j < indices.len() implies ({
        let a = sq_dist(q, ds.vector(#[trigger] indices[i] as int));
        let b = sq_dist(q, ds.vector(#[trigger] indices[j] as int));
        a < b || a == b && indices[i] < indices[j]
    }) by {
        assert(ds.nearer(q, indices[i] as int, indices[j] as int));
    }
    assert forall|t: usize, j: int|
        #![trigger indices.contains(t), indices[j]]
        t < ds.count && !indices.contains(t) && 0 <= j < indices.len() implies ({
        let a = sq_dist(q, ds.vector(indices[j] as int));
        let b = sq_dist(q, ds.vector(t as int));
        a < b || a == b && indices[j] < t
    }) by {
        assert(!indices.contains((t as int) as usize));
        assert(ds.nearer(q, indices[j] as int, t as int));
    }
    assert forall|i: int, j: int|
        0 <= i < indices.len() && 0 <= j < indices.len() && i != j implies indices[i]
        != indices[j] by {
        if i < j {
            assert(ds.nearer(q, indices[i] as int, indices[j] as int));
        } else {
            assert(ds.nearer(q, indices[j] as int, indices[i] as int));
        }
    }
}

} // verus!
