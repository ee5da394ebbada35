//! What clustering makes of the reference vectors.

use crate::distance::sq_dist;
use crate::index_file::{cell_offset, cell_rows, vector_rows, Index};
use crate::kmeans::{cells_of, empty_among, final_cells, is_clustered, law_cell_is_nearest,
    law_members, lemma_lloyd_len, lemma_mean_bounds, lemma_sum_bounds, lloyd, mean, members,
    quotient, size_among, sum_among};
use vstd::prelude::*;

verus! {

/// The sum of some numbers.
pub open spec fn total(s: Seq<int>) -> int {
    s.fold_left(0int, |a: int, b: int| a + b)
}

/// The components `d` of the vectors with the given numbers.
pub open spec fn components(vectors: Seq<Seq<i16>>, list: Seq<usize>, d: int) -> Seq<int> {
    list.map_values(|i: usize| vectors[i as int][d] as int)
}

/// One more number adds to the sum.
pub proof fn lemma_total_push(s: Seq<int>, x: int)
    ensures
        total(s.push(x)) == total(s) + x,
{
    assert(s.push(x).drop_last() =~= s);
}

/// Sizes and sums are those of the members.
proof fn lemma_members_add_up(vectors: Seq<Seq<i16>>, cells: Seq<int>, c: int, d: int, n: int)
    requires
        0 <= n <= vectors.len(),
        n <= usize::MAX,
    ensures
        members(cells, c, n).len() == size_among(cells, c, n),
        total(components(vectors, members(cells, c, n), d)) == sum_among(vectors, cells, c, d, n),
    decreases n,
{
    let list = members(cells, c, n);
    if n > 0 {
        lemma_members_add_up(vectors, cells, c, d, n - 1);
        let shorter = members(cells, c, n - 1);
        if cells[n - 1] == c {
            assert(components(vectors, list, d) =~= components(vectors, shorter, d).push(
                vectors[n - 1][d] as int,
            ));
            lemma_total_push(components(vectors, shorter, d), vectors[n - 1][d] as int);
        }
    } else {
        assert(components(vectors, list, d) =~= Seq::<int>::empty());
    }
}

/// The sum of numbers within bounds is within as many times the bounds.
proof fn lemma_total_between(s: Seq<int>, lo: int, hi: int)
    requires
        forall|i: int| 0 <= i < s.len() ==> lo <= #[trigger] s[i] <= hi,
    ensures
        lo * s.len() <= total(s) <= hi * s.len(),
    decreases s.len(),
{
    if s.len() > 0 {
        let shorter = s.drop_last();
        lemma_total_between(shorter, lo, hi);
        lemma_total_push(shorter, s.last());
        assert(shorter.push(s.last()) =~= s);
        let n = shorter.len() as int;
        assert(lo * (n + 1) == lo * n + lo) by (nonlinear_arith);
        assert(hi * (n + 1) == hi * n + hi) by (nonlinear_arith);
    }
}

/// A quotient rounded towards zero is off by less than one, and no larger than
/// the exact one.
proof fn lemma_quotient(a: int, b: int)
    requires
        b > 0,
    ensures
        -b < b * quotient(a, b) - a < b,
        a >= 0 ==> 0 <= b * quotient(a, b) <= a,
        a <= 0 ==> a <= b * quotient(a, b) <= 0,
{
    if a >= 0 {
        vstd::arithmetic::div_mod::lemma_fundamental_div_mod(a, b);
        vstd::arithmetic::div_mod::lemma_div_pos_is_pos(a, b);
        let q = a / b;
        assert(0 <= b * q) by (nonlinear_arith)
            requires
                b > 0,
                q >= 0,
        ;
    } else {
        vstd::arithmetic::div_mod::lemma_fundamental_div_mod(-a, b);
        vstd::arithmetic::div_mod::lemma_div_pos_is_pos(-a, b);
        let q = (-a) / b;
        assert(0 <= b * q && b * (-q) == -(b * q)) by (nonlinear_arith)
            requires
                b > 0,
                q >= 0,
        ;
    }
}

/// A quotient rounded towards zero keeps to whole bounds.
proof fn lemma_quotient_between(a: int, b: int, lo: int, hi: int)
    requires
        b > 0,
        lo * b <= a <= hi * b,
    ensures
        lo <= quotient(a, b) <= hi,
{
    lemma_quotient(a, b);
    let q = quotient(a, b);
    assert(lo <= q <= hi) by (nonlinear_arith)
        requires
            b > 0,
            lo * b <= a <= hi * b,
            -b < b * q - a < b,
            a >= 0 ==> b * q <= a,
            a <= 0 ==> a <= b * q,
    ;
}

/// Whether a centroid is the mean of some vectors, in each dimension rounded
/// towards zero: as many times the centroid is off the sum by less than their
/// number, and on the side of zero.
pub open spec fn is_mean_of(
    centroid: Seq<i16>,
    vectors: Seq<Seq<i16>>,
    list: Seq<usize>,
) -> bool {
    forall|d: int|
        0 <= d < 14 ==> {
            let sum = total(components(vectors, list, d));
            let times = list.len() * #[trigger] centroid[d];
            &&& sum >= 0 ==> sum - list.len() < times <= sum
            &&& sum <= 0 ==> sum <= times < sum + list.len()
        }
}

/// Whether a number is within bounds.
pub open spec fn within(x: int, lo: int, hi: int) -> bool {
    lo <= x <= hi
}

/// The next centroid of a cell that is not empty is the mean of the cell's
/// vectors in every dimension, and lies between the least and the greatest of
/// their components; that of an empty cell stays where it is.
pub proof fn law_centroid_is_mean(
    vectors: Seq<Seq<i16>>,
    cells: Seq<int>,
    c: int,
    centroid: Seq<i16>,
)
    requires
        vectors.len() <= usize::MAX,
    ensures
        ({
            let list = members(cells, c, vectors.len() as int);
            let next = mean(vectors, cells, c, centroid);
            if list.len() > 0 {
                is_mean_of(next, vectors, list) && next.len() == 14 && forall|d: int|
                    0 <= d < 14 ==> between_components(#[trigger] next[d] as int, vectors, list, d)
            } else {
                next == centroid
            }
        }),
{
    let n = vectors.len() as int;
    let list = members(cells, c, n);
    let next = mean(vectors, cells, c, centroid);
    lemma_members_add_up(vectors, cells, c, 0, n);
    if list.len() > 0 {
        let size = list.len() as int;
        assert forall|d: int| 0 <= d < 14 implies ({
            let sum = total(components(vectors, list, d));
            let times = list.len() * #[trigger] next[d];
            &&& sum >= 0 ==> sum - list.len() < times <= sum
            &&& sum <= 0 ==> sum <= times < sum + list.len()
            &&& between_components(next[d] as int, vectors, list, d)
        }) by {
            let sum = total(components(vectors, list, d));
            lemma_members_add_up(vectors, cells, c, d, n);
            lemma_sum_bounds(vectors, cells, c, d, n);
            lemma_mean_bounds(sum, size);
            lemma_quotient(sum, size);
            assert(next[d] == quotient(sum, size));
            assert forall|lo: int, hi: int|
                bound_components(vectors, list, d, lo, hi) implies #[trigger] within(
                next[d] as int,
                lo,
                hi,
            ) by {
                let s = components(vectors, list, d);
                assert forall|i: int| 0 <= i < s.len() implies lo <= #[trigger] s[i] <= hi by {
                    assert(lo <= vectors[list[i] as int][d] <= hi);
                }
                lemma_total_between(s, lo, hi);
                lemma_quotient_between(sum, size, lo, hi);
            }
        }
    }
}

/// Whether two numbers bound the components `d` of some vectors.
pub open spec fn bound_components(
    vectors: Seq<Seq<i16>>,
    list: Seq<usize>,
    d: int,
    lo: int,
    hi: int,
) -> bool {
    forall|j: int| 0 <= j < list.len() ==> lo <= #[trigger] vectors[list[j] as int][d] <= hi
}

/// Whether a number lies between any bounds of the components `d` of some
/// vectors.
pub open spec fn between_components(
    x: int,
    vectors: Seq<Seq<i16>>,
    list: Seq<usize>,
    d: int,
) -> bool {
    forall|lo: int, hi: int|
        bound_components(vectors, list, d, lo, hi) ==> #[trigger] within(x, lo, hi)
}

/// Each round moves the centroids to the means of their cells, where a vector
/// belongs to the cell of a nearest centroid, the first one of several; a cell
/// that no vector is nearest to keeps its centroid.
pub proof fn law_rounds(vectors: Seq<Seq<i16>>, k: int, c: int)
    requires
        0 <= k,
        0 <= c < 1024,
        vectors.len() <= usize::MAX,
    ensures
        ({
            let before = lloyd(vectors, k);
            let next = lloyd(vectors, k + 1)[c];
            let list = members(cells_of(before, vectors), c, vectors.len() as int);
            &&& before.len() == 1024
            &&& list.len() > 0 ==> is_mean_of(next, vectors, list)
            &&& list.len() == 0 ==> next == before[c]
            &&& forall|j: int, e: int|
                0 <= j < list.len() && 0 <= e < 1024 ==> {
                    let v = vectors[#[trigger] list[j] as int];
                    &&& sq_dist(before[c], v) <= sq_dist(#[trigger] before[e], v)
                    &&& e < c ==> sq_dist(before[c], v) < sq_dist(before[e], v)
                }
        }),
{
    let n = vectors.len() as int;
    let before = lloyd(vectors, k);
    let cells = cells_of(before, vectors);
    let list = members(cells, c, n);
    lemma_lloyd_len(vectors, k);
    law_centroid_is_mean(vectors, cells, c, before[c]);
    law_members(cells, c, n);
    assert(lloyd(vectors, k + 1)[c] == mean(vectors, cells, c, before[c]));
    assert forall|j: int, e: int| 0 <= j < list.len() && 0 <= e < 1024 implies ({
        let v = vectors[#[trigger] list[j] as int];
        &&& sq_dist(before[c], v) <= sq_dist(#[trigger] before[e], v)
        &&& e < c ==> sq_dist(before[c], v) < sq_dist(before[e], v)
    }) by {
        let i = list[j];
        assert(list.contains(i));
        law_cell_is_nearest(before, vectors[i as int]);
        assert(cells[i as int] == c);
    }
}

/// Before the first round the centroids are vectors at even distances: with at
/// least as many vectors as cells each cell has one of its own, and all start
/// with the first vector where there are fewer.
pub proof fn law_seeds(vectors: Seq<Seq<i16>>, c: int)
    requires
        vectors.len() > 0,
        0 <= c < 1024,
    ensures
        lloyd(vectors, 0).len() == 1024,
        vectors.len() < 1024 ==> lloyd(vectors, 0)[c] == vectors[0],
        forall|step: int|
            1024 * step <= vectors.len() < #[trigger] (1024 * (step + 1)) ==> 0 <= c * step
                < vectors.len() && lloyd(vectors, 0)[c] == vectors[c * step],
{
    let n = vectors.len() as int;
    assert forall|step: int| 1024 * step <= n < #[trigger] (1024 * (step + 1)) implies 0 <= c * step
        < n && lloyd(vectors, 0)[c] == vectors[c * step] by {
        assert(step == n / 1024);
        assert(0 <= c * step && (c * step <= 1023 * step)) by (nonlinear_arith)
            requires
                0 <= c < 1024,
                0 <= step,
        ;
        vstd::arithmetic::div_mod::lemma_small_mod((c * step) as nat, n as nat);
    }
    if n < 1024 {
        assert(1024 * 0 <= n < 1024 * (0int + 1));
    }
}

/// The vectors of an index as rows.
pub open spec fn rows_of(ix: &Index) -> Seq<Seq<i16>> {
    vector_rows(ix.vectors@)
}

/// The centroids of a clustered index are those after three rounds: that of
/// each cell with vectors is, in every dimension, the mean of the vectors that
/// the cell lists, and lies between the least and the greatest of their
/// components; and each of these vectors is listed where the centroid of the
/// second round is nearest.
pub proof fn law_clustered_index(ix: &Index, c: int)
    requires
        is_clustered(ix),
        0 <= c < 1024,
    ensures
        ix.centroids@.len() == 1024,
        ix.cells@.len() == 1024,
        vector_rows(ix.centroids@) == lloyd(rows_of(ix), 3),
        ix.cells@[c]@.len() > 0 ==> is_mean_of(ix.centroids@[c]@, rows_of(ix), ix.cells@[c]@),
        ix.cells@[c]@.len() > 0 ==> forall|d: int|
            0 <= d < 14 ==> between_components(
                #[trigger] ix.centroids@[c]@[d] as int,
                rows_of(ix),
                ix.cells@[c]@,
                d,
            ),
        ix.cells@[c]@.len() == 0 ==> ix.centroids@[c]@ == lloyd(rows_of(ix), 2)[c],
        forall|j: int, e: int|
            0 <= j < ix.cells@[c]@.len() && 0 <= e < 1024 ==> {
                let v = rows_of(ix)[#[trigger] ix.cells@[c]@[j] as int];
                &&& sq_dist(lloyd(rows_of(ix), 2)[c], v) <= sq_dist(
                    #[trigger] lloyd(rows_of(ix), 2)[e],
                    v,
                )
            },
{
    let rows = rows_of(ix);
    assert(ix.vectors@.len() <= usize::MAX) by {
        assert(ix.vectors.len() <= usize::MAX);
    }
    lemma_lloyd_len(rows, 3);
    assert(vector_rows(ix.centroids@).len() == ix.centroids@.len());
    assert(ix.centroids@[c]@ == vector_rows(ix.centroids@)[c]);
    law_rounds(rows, 2, c);
    lemma_lloyd_len(rows, 2);
    law_centroid_is_mean(rows, final_cells(rows), c, lloyd(rows, 2)[c]);
    assert(ix.cells@[c]@ == members(final_cells(rows), c, rows.len() as int));
    assert(lloyd(rows, 3)[c] == mean(rows, final_cells(rows), c, lloyd(rows, 2)[c]));
}

/// The number of empty cells is that of the cells without vectors.
pub proof fn law_empty_cells_are_counted(cells: Seq<Vec<usize>>, n: int)
    requires
        0 <= n <= cells.len(),
    ensures
        empty_among(cells, n) == cells.take(n).filter(|cell: Vec<usize>| cell@.len() == 0).len(),
    decreases n,
{
    reveal(Seq::filter);
    if n > 0 {
        law_empty_cells_are_counted(cells, n - 1);
        assert(cells.take(n).drop_last() =~= cells.take(n - 1));
        assert(cells.take(n).last() == cells[n - 1]);
    }
}

/// The sizes of the first `n` cells.
pub open spec fn cell_sizes(cells: Seq<Vec<usize>>, n: nat) -> Seq<int> {
    Seq::new(n, |c: int| cells[c]@.len() as int)
}

/// The cells before a cell hold as many vectors as their sizes add up to.
pub proof fn law_cell_offsets(cells: Seq<Vec<usize>>, n: nat)
    requires
        n <= cells.len(),
    ensures
        cell_offset(cells, n as int) == total(cell_sizes(cells, n)),
    decreases n,
{
    if n > 0 {
        let m = (n - 1) as nat;
        law_cell_offsets(cells, m);
        let x = cells[n - 1]@.len() as int;
        assert(cell_sizes(cells, n) =~= cell_sizes(cells, m).push(x));
        lemma_total_push(cell_sizes(cells, m), x);
        assert(cell_rows(cells)[n - 1].len() == x);
    } else {
        assert(cell_sizes(cells, n) =~= Seq::<int>::empty());
    }
}

} // verus!
