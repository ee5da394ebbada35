//! Squared Euclidean distances between quantized vectors.

use vstd::prelude::*;

verus! {

/// Number of dimensions per vector.
pub const DIMS: usize = 14;

/// No squared distance between two vectors exceeds this.
pub const MAX_DISTANCE: i64 = 60_127_707_150;

/// The square of an integer.
pub open spec fn square(x: int) -> int {
    x * x
}

/// The squared distance over the first `n` dimensions.
pub open spec fn sq_dist_over(a: Seq<i16>, b: Seq<i16>, n: nat) -> int
    decreases n,
{
    if n == 0 {
        0
    } else {
        sq_dist_over(a, b, (n - 1) as nat) + square(a[n - 1] - b[n - 1])
    }
}

/// The squared Euclidean distance of two vectors.
pub open spec fn sq_dist(a: Seq<i16>, b: Seq<i16>) -> int {
    sq_dist_over(a, b, DIMS as nat)
}

/// How far `x` exceeds zero.
pub open spec fn excess(x: int) -> int {
    if x > 0 {
        x
    } else {
        0
    }
}

/// What one dimension adds to the squared distance from a point to a box: the
/// squares of how far it lies above the upper corner and below the lower one.
pub open spec fn beyond(q: int, lo: int, hi: int) -> int {
    square(excess(q - hi)) + square(excess(lo - q))
}

/// The squared distance from a point to a box, over the first `n` dimensions.
pub open spec fn box_dist_over(q: Seq<i16>, lo: Seq<i16>, hi: Seq<i16>, n: nat) -> int
    decreases n,
{
    if n == 0 {
        0
    } else {
        box_dist_over(q, lo, hi, (n - 1) as nat) + beyond(
            q[n - 1] as int,
            lo[n - 1] as int,
            hi[n - 1] as int,
        )
    }
}

/// The squared Euclidean distance from a point to a box. Where the lower corner
/// exceeds the upper one, a point between them lies beyond both, and both count.
pub open spec fn box_dist(q: Seq<i16>, lo: Seq<i16>, hi: Seq<i16>) -> int {
    box_dist_over(q, lo, hi, DIMS as nat)
}

/// The square of a difference of two 16-bit values.
pub proof fn lemma_square(x: int)
    requires
        -65535 <= x <= 65535,
    ensures
        0 <= square(x) <= 4_294_836_225,
        square(x) == 0 <==> x == 0,
{
    assert(0 <= x * x <= 4_294_836_225 && (x * x == 0 <==> x == 0)) by (nonlinear_arith)
        requires
            -65535 <= x <= 65535,
    ;
}

/// Squared distances lie between zero and a bound far below 2^63.
pub proof fn lemma_sq_dist_bounds(a: Seq<i16>, b: Seq<i16>, n: nat)
    ensures
        0 <= sq_dist_over(a, b, n) <= 4_294_836_225 * n,
    decreases n,
{
    if n > 0 {
        lemma_sq_dist_bounds(a, b, (n - 1) as nat);
        lemma_square(a[n - 1] - b[n - 1]);
    }
}

proof fn lemma_symmetric_over(a: Seq<i16>, b: Seq<i16>, n: nat)
    ensures
        sq_dist_over(a, b, n) == sq_dist_over(b, a, n),
    decreases n,
{
    if n > 0 {
        lemma_symmetric_over(a, b, (n - 1) as nat);
        let x = a[n - 1] - b[n - 1];
        assert(x * x == (-x) * (-x)) by (nonlinear_arith);
    }
}

/// The distance does not depend on the order of the two vectors.
pub proof fn law_distance_symmetric(a: Seq<i16>, b: Seq<i16>)
    ensures
        sq_dist(a, b) == sq_dist(b, a),
{
    lemma_symmetric_over(a, b, DIMS as nat);
}

proof fn lemma_zero_over(a: Seq<i16>, b: Seq<i16>, n: nat)
    ensures
        sq_dist_over(a, b, n) == 0 <==> (forall|i: int| 0 <= i < n ==> a[i] == b[i]),
    decreases n,
{
    if n > 0 {
        lemma_zero_over(a, b, (n - 1) as nat);
        lemma_sq_dist_bounds(a, b, (n - 1) as nat);
        lemma_square(a[n - 1] - b[n - 1]);
    }
}

/// Two vectors are at distance zero exactly when they are equal.
pub proof fn law_distance_zero(a: Seq<i16>, b: Seq<i16>)
    requires
        a.len() == DIMS,
        b.len() == DIMS,
    ensures
        sq_dist(a, b) == 0 <==> a == b,
{
    lemma_zero_over(a, b, DIMS as nat);
    if sq_dist(a, b) == 0 {
        assert(a =~= b);
    }
}

proof fn lemma_box_below_over(q: Seq<i16>, v: Seq<i16>, lo: Seq<i16>, hi: Seq<i16>, n: nat)
    requires
        forall|i: int| 0 <= i < n ==> #[trigger] lo[i] <= v[i] && v[i] <= hi[i],
    ensures
        box_dist_over(q, lo, hi, n) <= sq_dist_over(q, v, n),
    decreases n,
{
    if n > 0 {
        lemma_box_below_over(q, v, lo, hi, (n - 1) as nat);
        let i = n - 1;
        assert(lo[i] <= v[i]);
        let above = excess(q[i] - hi[i]);
        let below = excess(lo[i] - q[i]);
        let y = q[i] - v[i];
        assert(above * above + below * below <= y * y) by (nonlinear_arith)
            requires
                above == 0 || below == 0,
                0 <= above && 0 <= below,
                above == 0 || above <= y,
                below == 0 || below <= -y,
        ;
    }
}

/// The distance to a box never exceeds the distance to a vector inside it.
pub proof fn law_box_distance_is_lower_bound(q: Seq<i16>, v: Seq<i16>, lo: Seq<i16>, hi: Seq<i16>)
    requires
        forall|i: int| 0 <= i < DIMS ==> #[trigger] lo[i] <= v[i] && v[i] <= hi[i],
    ensures
        box_dist(q, lo, hi) <= sq_dist(q, v),
{
    lemma_box_below_over(q, v, lo, hi, DIMS as nat);
}

/// L2 squared distance between two i16 vectors, accumulated in i64.
pub fn distance_i16(a: &[i16; DIMS], b: &[i16; DIMS]) -> (r: i64)
    ensures
        r == sq_dist(a@, b@),
        0 <= r <= MAX_DISTANCE,
{
    let mut sum: i64 = 0;
    let mut d: usize = 0;
    while d < DIMS
        invariant
            d <= DIMS,
            sum == sq_dist_over(a@, b@, d as nat),
            0 <= sum <= 4_294_836_225 * d,
        decreases DIMS - d,
    {
        let diff: i64 = a[d] as i64 - b[d] as i64;
        proof {
            lemma_square(diff as int);
        }
        sum = sum + diff * diff;
        d = d + 1;
    }
    sum
}

} // verus!
