//! Clustering of the reference vectors into cells: evenly spaced seeds, then
//! Lloyd's algorithm.

use crate::dataset::Dataset;
use crate::distance::{distance_i16, sq_dist, DIMS};
use crate::index_file::{cell_offset, cell_rows, fault, holds, index_bytes, vector_rows, Index};
use crate::index_laws::{law_encoded_loads_well_formed, law_load_gives_back_encoded,
    lemma_cell_offset};
use rayon::iter::{IntoParallelRefIterator, ParallelIterator};
use vstd::prelude::*;

verus! {

/// Number of cells of an index.
pub const NUM_CELLS: usize = 1024;

/// Number of rounds of Lloyd's algorithm.
pub const KMEANS_ITERATIONS: usize = 3;

/// The sums of fewer components than this fit in 63 bits.
pub const MAX_SUMMANDS: u64 = 0x1_0000_0000_0000;

/// The seed of cell `c`: the vectors stand at even distances.
pub open spec fn seed(vectors: Seq<Seq<i16>>, c: int) -> Seq<i16> {
    vectors[(c * (vectors.len() as int / NUM_CELLS as int)) % (vectors.len() as int)]
}

/// The seeds of all cells.
pub open spec fn seeds(vectors: Seq<Seq<i16>>) -> Seq<Seq<i16>> {
    Seq::new(NUM_CELLS as nat, |c: int| seed(vectors, c))
}

/// The first of the `n` first centroids that are nearest to a vector.
pub open spec fn nearest_among(centroids: Seq<Seq<i16>>, v: Seq<i16>, n: int) -> int
    decreases n,
{
    if n <= 1 {
        0
    } else {
        let c = nearest_among(centroids, v, n - 1);
        if sq_dist(centroids[n - 1], v) < sq_dist(centroids[c], v) {
            n - 1
        } else {
            c
        }
    }
}

/// The cell of a vector: that of the nearest centroid, the first one of
/// several.
pub open spec fn cell_of(centroids: Seq<Seq<i16>>, v: Seq<i16>) -> int {
    nearest_among(centroids, v, centroids.len() as int)
}

/// The cells of some vectors.
pub open spec fn cells_of(centroids: Seq<Seq<i16>>, vectors: Seq<Seq<i16>>) -> Seq<int> {
    Seq::new(vectors.len(), |i: int| cell_of(centroids, vectors[i]))
}

/// The number of the first `n` vectors that lie in cell `c`.
pub open spec fn size_among(cells: Seq<int>, c: int, n: int) -> int
    decreases n,
{
    if n <= 0 {
        0
    } else {
        size_among(cells, c, n - 1) + if cells[n - 1] == c {
            1int
        } else {
            0int
        }
    }
}

/// The sum of component `d` over those of the first `n` vectors that lie in
/// cell `c`.
pub open spec fn sum_among(vectors: Seq<Seq<i16>>, cells: Seq<int>, c: int, d: int, n: int) -> int
    decreases n,
{
    if n <= 0 {
        0
    } else {
        sum_among(vectors, cells, c, d, n - 1) + if cells[n - 1] == c {
            vectors[n - 1][d] as int
        } else {
            0int
        }
    }
}

/// The quotient, rounded towards zero.
pub open spec fn quotient(a: int, b: int) -> int {
    if a >= 0 {
        a / b
    } else {
        -((-a) / b)
    }
}

/// The mean of the vectors of cell `c`; an empty cell keeps its centroid.
pub open spec fn mean(
    vectors: Seq<Seq<i16>>,
    cells: Seq<int>,
    c: int,
    centroid: Seq<i16>,
) -> Seq<i16> {
    let n = vectors.len() as int;
    if size_among(cells, c, n) > 0 {
        Seq::new(
            DIMS as nat,
            |d: int|
                quotient(sum_among(vectors, cells, c, d, n), size_among(cells, c, n)) as i16,
        )
    } else {
        centroid
    }
}

/// The centroids of the next round.
pub open spec fn means(
    vectors: Seq<Seq<i16>>,
    cells: Seq<int>,
    centroids: Seq<Seq<i16>>,
) -> Seq<Seq<i16>> {
    Seq::new(centroids.len(), |c: int| mean(vectors, cells, c, centroids[c]))
}

/// The centroids after `k` rounds.
pub open spec fn lloyd(vectors: Seq<Seq<i16>>, k: int) -> Seq<Seq<i16>>
    decreases k,
{
    if k <= 0 {
        seeds(vectors)
    } else {
        let centroids = lloyd(vectors, k - 1);
        means(vectors, cells_of(centroids, vectors), centroids)
    }
}

/// Those of the first `n` vectors that lie in cell `c`, in ascending order.
pub open spec fn members(cells: Seq<int>, c: int, n: int) -> Seq<usize>
    decreases n,
{
    if n <= 0 {
        Seq::empty()
    } else if cells[n - 1] == c {
        members(cells, c, n - 1).push((n - 1) as usize)
    } else {
        members(cells, c, n - 1)
    }
}

/// Picks the seeds of all cells.
pub fn initial_centroids(vectors: &[[i16; DIMS]]) -> (r: Vec<[i16; DIMS]>)
    requires
        vectors@.len() > 0,
    ensures
        vector_rows(r@) == seeds(vector_rows(vectors@)),
{
    let n: usize = vectors.len();
    let step: usize = n / NUM_CELLS;
    let mut r: Vec<[i16; DIMS]> = Vec::new();
    let mut c: usize = 0;
    while c < NUM_CELLS
        invariant
            c <= NUM_CELLS,
            n == vectors@.len(),
            n > 0,
            step == n / NUM_CELLS,
            r@.len() == c,
            forall|j: int|
                0 <= j < c ==> (#[trigger] r@[j])@ == seed(vector_rows(vectors@), j),
        decreases NUM_CELLS - c,
    {
        assert(c * step <= n) by (nonlinear_arith)
            requires
                c < 1024,
                1024 * step <= n,
                0 <= step,
        ;
        assert(0 <= c * step) by (nonlinear_arith)
            requires
                0 <= c,
                0 <= step,
        ;
        r.push(vectors[(c * step) % n]);
        c = c + 1;
    }
    assert(vector_rows(r@) =~= seeds(vector_rows(vectors@)));
    r
}

/// Finds the cell of a vector.
pub fn nearest_centroid(centroids: &[[i16; DIMS]], v: &[i16; DIMS]) -> (r: usize)
    ensures
        r == cell_of(vector_rows(centroids@), v@),
        centroids@.len() > 0 ==> r < centroids@.len(),
{
    let mut best_dist: i64 = i64::MAX;
    let mut best: usize = 0;
    let mut c: usize = 0;
    while c < centroids.len()
        invariant
            c <= centroids@.len(),
            best == nearest_among(vector_rows(centroids@), v@, c as int),
            c == 0 ==> best_dist == i64::MAX && best == 0,
            c > 0 ==> best < c && best_dist == sq_dist(vector_rows(centroids@)[best as int], v@),
        decreases centroids@.len() - c,
    {
        let d: i64 = distance_i16(&centroids[c], v);
        if d < best_dist {
            best_dist = d;
            best = c;
        }
        c = c + 1;
    }
    best
}

/// Maps `nearest_centroid` over the vectors with `rayon`'s `par_iter`, `map`
/// and `collect`. Claims that the outcomes come in the order of the vectors,
/// one for each.
#[verifier::external_body]
fn assign_cells(vectors: &[[i16; DIMS]], centroids: &[[i16; DIMS]]) -> (r: Vec<usize>)
    ensures
        r@.len() == vectors@.len(),
        forall|i: int|
            0 <= i < r@.len() ==> #[trigger] r@[i] == cell_of(
                vector_rows(centroids@),
                vectors@[i]@,
            ),
{
    vectors.par_iter().map(|v| nearest_centroid(centroids, v)).collect()
}

/// The cells as plain numbers.
pub open spec fn as_ints(cells: Seq<usize>) -> Seq<int> {
    Seq::new(cells.len(), |i: int| cells[i] as int)
}

/// A sum is bounded by the number of its summands.
pub proof fn lemma_sum_bounds(vectors: Seq<Seq<i16>>, cells: Seq<int>, c: int, d: int, n: int)
    requires
        0 <= n,
    ensures
        -32768 * size_among(cells, c, n) <= sum_among(vectors, cells, c, d, n) <= 32767
            * size_among(cells, c, n),
        0 <= size_among(cells, c, n) <= n,
    decreases n,
{
    if n > 0 {
        lemma_sum_bounds(vectors, cells, c, d, n - 1);
    }
}

/// A mean of 16-bit numbers is a 16-bit number.
pub proof fn lemma_mean_bounds(sum: int, size: int)
    requires
        size > 0,
        -32768 * size <= sum <= 32767 * size,
    ensures
        -32768 <= quotient(sum, size) <= 32767,
{
    if sum >= 0 {
        assert(0 <= sum / size <= 32767) by (nonlinear_arith)
            requires
                size > 0,
                0 <= sum <= 32767 * size,
        ;
    } else {
        assert(0 <= (-sum) / size <= 32768) by (nonlinear_arith)
            requires
                size > 0,
                0 <= -sum <= 32768 * size,
        ;
    }
}

/// Computes the quotient of two numbers, rounded towards zero.
fn divide(a: i64, b: i64) -> (r: i64)
    requires
        b > 0,
        a > i64::MIN,
    ensures
        r == quotient(a as int, b as int),
{
    if a >= 0 {
        a / b
    } else {
        let q: i64 = (-a) / b;
        assert(0 <= (-a) as int / b as int <= -a) by (nonlinear_arith)
            requires
                a < 0,
                b > 0,
        ;
        -q
    }
}

/// The sums and the sizes of the cells.
struct Tally {
    sums: Vec<[i64; DIMS]>,
    sizes: Vec<u64>,
}

impl Tally {
    /// Whether this is the tally of the first `n` vectors, over `m` cells.
    spec fn counts(&self, vectors: Seq<Seq<i16>>, cells: Seq<int>, m: int, n: int) -> bool {
        &&& self.sums@.len() == m
        &&& self.sizes@.len() == m
        &&& forall|c: int|
            0 <= c < m ==> #[trigger] self.sizes@[c] == size_among(cells, c, n)
        &&& forall|c: int, d: int|
            0 <= c < m && 0 <= d < DIMS ==> #[trigger] self.sums@[c]@[d] == sum_among(
                vectors,
                cells,
                c,
                d,
                n,
            )
    }
}

/// Adds up the vectors of each of `m` cells.
fn tally_cells(vectors: &[[i16; DIMS]], cells: &[usize], m: usize) -> (r: Tally)
    requires
        vectors@.len() < MAX_SUMMANDS,
        cells@.len() == vectors@.len(),
        forall|i: int| 0 <= i < cells@.len() ==> #[trigger] cells@[i] < m,
    ensures
        r.counts(
            vector_rows(vectors@),
            as_ints(cells@),
            m as int,
            vectors@.len() as int,
        ),
{
    let ghost rows = vector_rows(vectors@);
    let ghost of = as_ints(cells@);
    let mut sums: Vec<[i64; DIMS]> = Vec::new();
    let mut sizes: Vec<u64> = Vec::new();
    let mut c: usize = 0;
    while c < m
        invariant
            c <= m,
            sums@.len() == c,
            sizes@.len() == c,
            forall|j: int| 0 <= j < c ==> #[trigger] sizes@[j] == 0,
            forall|j: int, d: int| 0 <= j < c && 0 <= d < DIMS ==> #[trigger] sums@[j]@[d] == 0,
        decreases m - c,
    {
        sums.push([0; DIMS]);
        sizes.push(0);
        c = c + 1;
    }
    let mut tally = Tally { sums, sizes };
    let mut i: usize = 0;
    while i < vectors.len()
        invariant
            i <= vectors@.len(),
            vectors@.len() < MAX_SUMMANDS,
            cells@.len() == vectors@.len(),
            forall|i: int| 0 <= i < cells@.len() ==> #[trigger] cells@[i] < m,
            rows == vector_rows(vectors@),
            of == as_ints(cells@),
            tally.counts(rows, of, m as int, i as int),
        decreases vectors@.len() - i,
    {
        let a: usize = cells[i];
        let mut row: [i64; DIMS] = tally.sums[a];
        let mut d: usize = 0;
        while d < DIMS
            invariant
                d <= DIMS,
                i < vectors@.len(),
                vectors@.len() < MAX_SUMMANDS,
                cells@.len() == vectors@.len(),
                a == cells@[i as int],
                rows == vector_rows(vectors@),
                of == as_ints(cells@),
                forall|e: int|
                    0 <= e < d ==> #[trigger] row@[e] == sum_among(rows, of, a as int, e, i + 1),
                forall|e: int|
                    d <= e < DIMS ==> #[trigger] row@[e] == sum_among(
                        rows,
                        of,
                        a as int,
                        e,
                        i as int,
                    ),
            decreases DIMS - d,
        {
            proof {
                lemma_sum_bounds(rows, of, a as int, d as int, i as int);
                assert(row@[d as int] == sum_among(rows, of, a as int, d as int, i as int));
                assert(rows[i as int][d as int] == vectors@[i as int]@[d as int]);
            }
            row[d] = row[d] + vectors[i][d] as i64;
            d = d + 1;
        }
        let size: u64 = tally.sizes[a];
        proof {
            lemma_sum_bounds(rows, of, a as int, 0, i as int);
        }
        tally.sums.set(a, row);
        tally.sizes.set(a, size + 1);
        i = i + 1;
    }
    tally
}

/// Moves each centroid to the mean of its cell.
fn recompute_centroids(
    vectors: &[[i16; DIMS]],
    cells: &[usize],
    centroids: &[[i16; DIMS]],
) -> (r: Vec<[i16; DIMS]>)
    requires
        vectors@.len() < MAX_SUMMANDS,
        cells@.len() == vectors@.len(),
        forall|i: int| 0 <= i < cells@.len() ==> #[trigger] cells@[i] < centroids@.len(),
    ensures
        vector_rows(r@) == means(
            vector_rows(vectors@),
            as_ints(cells@),
            vector_rows(centroids@),
        ),
{
    let ghost rows = vector_rows(vectors@);
    let ghost of = as_ints(cells@);
    let ghost n = vectors@.len() as int;
    let tally = tally_cells(vectors, cells, centroids.len());
    let mut r: Vec<[i16; DIMS]> = Vec::new();
    let mut c: usize = 0;
    while c < centroids.len()
        invariant
            c <= centroids@.len(),
            n < MAX_SUMMANDS,
            n == rows.len(),
            tally.counts(rows, of, centroids@.len() as int, n),
            r@.len() == c,
            forall|j: int|
                0 <= j < c ==> (#[trigger] r@[j])@ == mean(rows, of, j, centroids@[j]@),
        decreases centroids@.len() - c,
    {
        let size: u64 = tally.sizes[c];
        if size > 0 {
            let mut row: [i16; DIMS] = [0; DIMS];
            let mut d: usize = 0;
            while d < DIMS
                invariant
                    d <= DIMS,
                    c < centroids@.len(),
                    n < MAX_SUMMANDS,
                    n == rows.len(),
                    tally.counts(rows, of, centroids@.len() as int, n),
                    size == size_among(of, c as int, n),
                    size > 0,
                    forall|e: int|
                        0 <= e < d ==> #[trigger] row@[e] == mean(
                            rows,
                            of,
                            c as int,
                            centroids@[c as int]@,
                        )[e],
                decreases DIMS - d,
            {
                let sum: i64 = tally.sums[c][d];
                proof {
                    lemma_sum_bounds(rows, of, c as int, d as int, n);
                    assert(tally.sums@[c as int]@[d as int] == sum);
                    lemma_mean_bounds(sum as int, size as int);
                }
                row[d] = divide(sum, size as i64) as i16;
                d = d + 1;
            }
            assert(row@ =~= mean(rows, of, c as int, centroids@[c as int]@));
            r.push(row);
        } else {
            proof {
                lemma_sum_bounds(rows, of, c as int, 0, n);
            }
            r.push(centroids[c]);
        }
        c = c + 1;
    }
    assert(vector_rows(r@) =~= means(rows, of, vector_rows(centroids@)));
    r
}

/// Lists the vectors of each of `m` cells, in ascending order.
fn build_cells(cells: &[usize], m: usize) -> (r: Vec<Vec<usize>>)
    requires
        forall|i: int| 0 <= i < cells@.len() ==> #[trigger] cells@[i] < m,
    ensures
        r@.len() == m,
        forall|c: int|
            0 <= c < m ==> (#[trigger] r@[c])@ == members(
                as_ints(cells@),
                c,
                cells@.len() as int,
            ),
{
    let mut r: Vec<Vec<usize>> = Vec::new();
    let mut c: usize = 0;
    while c < m
        invariant
            c <= m,
            r@.len() == c,
            forall|j: int| 0 <= j < c ==> (#[trigger] r@[j])@ == Seq::<usize>::empty(),
        decreases m - c,
    {
        r.push(Vec::new());
        c = c + 1;
    }
    let mut i: usize = 0;
    while i < cells.len()
        invariant
            i <= cells@.len(),
            forall|i: int| 0 <= i < cells@.len() ==> #[trigger] cells@[i] < m,
            r@.len() == m,
            forall|c: int|
                0 <= c < m ==> (#[trigger] r@[c])@ == members(as_ints(cells@), c, i as int),
        decreases cells@.len() - i,
    {
        let a: usize = cells[i];
        r[a].push(i);
        i = i + 1;
    }
    r
}

/// A vector lies in the cell of a nearest centroid, and of the first one of
/// several.
pub proof fn law_cell_is_nearest(centroids: Seq<Seq<i16>>, v: Seq<i16>)
    requires
        centroids.len() > 0,
    ensures
        0 <= cell_of(centroids, v) < centroids.len(),
        forall|c: int|
            0 <= c < centroids.len() ==> sq_dist(centroids[cell_of(centroids, v)], v) <= sq_dist(
                #[trigger] centroids[c],
                v,
            ),
        forall|c: int|
            0 <= c < cell_of(centroids, v) ==> sq_dist(centroids[cell_of(centroids, v)], v)
                < sq_dist(#[trigger] centroids[c], v),
{
    lemma_nearest_among(centroids, v, centroids.len() as int);
}

proof fn lemma_nearest_among(centroids: Seq<Seq<i16>>, v: Seq<i16>, n: int)
    requires
        0 < n <= centroids.len(),
    ensures
        0 <= nearest_among(centroids, v, n) < n,
        forall|c: int|
            0 <= c < n ==> sq_dist(centroids[nearest_among(centroids, v, n)], v) <= sq_dist(
                #[trigger] centroids[c],
                v,
            ),
        forall|c: int|
            0 <= c < nearest_among(centroids, v, n) ==> sq_dist(
                centroids[nearest_among(centroids, v, n)],
                v,
            ) < sq_dist(#[trigger] centroids[c], v),
    decreases n,
{
    if n > 1 {
        lemma_nearest_among(centroids, v, n - 1);
    }
}

/// There is a centroid for each cell after every round.
pub proof fn lemma_lloyd_len(vectors: Seq<Seq<i16>>, k: int)
    ensures
        lloyd(vectors, k).len() == NUM_CELLS,
    decreases k,
{
    if k > 0 {
        lemma_lloyd_len(vectors, k - 1);
    }
}

/// The cells of an index of some vectors: those of the last round but one,
/// whose means are the centroids.
pub open spec fn final_cells(vectors: Seq<Seq<i16>>) -> Seq<int> {
    cells_of(lloyd(vectors, KMEANS_ITERATIONS - 1), vectors)
}

/// Whether an index is that of its vectors.
pub open spec fn is_clustered(ix: &Index) -> bool {
    let rows = vector_rows(ix.vectors@);
    &&& ix.wf()
    &&& vector_rows(ix.centroids@) == lloyd(rows, KMEANS_ITERATIONS as int)
    &&& ix.cells@.len() == NUM_CELLS
    &&& forall|c: int|
        0 <= c < NUM_CELLS ==> (#[trigger] ix.cells@[c])@ == members(
            final_cells(rows),
            c,
            rows.len() as int,
        )
}

/// Clusters labelled vectors.
pub fn build_index(vectors: Vec<[i16; DIMS]>, labels: Vec<bool>) -> (ix: Index)
    requires
        0 < vectors@.len() < MAX_SUMMANDS,
        labels@.len() == vectors@.len(),
    ensures
        ix.vectors@ == vectors@,
        ix.labels@ == labels@,
        is_clustered(&ix),
{
    let ghost rows = vector_rows(vectors@);
    let mut centroids: Vec<[i16; DIMS]> = initial_centroids(&vectors);
    let mut cells: Vec<usize> = Vec::new();
    let mut k: usize = 0;
    while k < KMEANS_ITERATIONS
        invariant
            k <= KMEANS_ITERATIONS,
            0 < vectors@.len() < MAX_SUMMANDS,
            rows == vector_rows(vectors@),
            vector_rows(centroids@) == lloyd(rows, k as int),
            k > 0 ==> as_ints(cells@) == cells_of(lloyd(rows, k - 1), rows),
            k > 0 ==> cells@.len() == vectors@.len(),
            k > 0 ==> forall|i: int|
                0 <= i < cells@.len() ==> #[trigger] cells@[i] < NUM_CELLS,
        decreases KMEANS_ITERATIONS - k,
    {
        cells = assign_cells(&vectors, &centroids);
        proof {
            lemma_lloyd_len(rows, k as int);
            assert(vector_rows(centroids@).len() == centroids@.len());
            assert forall|i: int| 0 <= i < cells@.len() implies #[trigger] cells@[i]
                < NUM_CELLS by {
                lemma_nearest_among(
                    vector_rows(centroids@),
                    vectors@[i]@,
                    centroids@.len() as int,
                );
            }
            assert(as_ints(cells@) =~= cells_of(lloyd(rows, k as int), rows));
        }
        centroids = recompute_centroids(&vectors, &cells, &centroids);
        k = k + 1;
    }
    proof {
        lemma_lloyd_len(rows, KMEANS_ITERATIONS as int);
        assert(vector_rows(centroids@).len() == centroids@.len());
    }
    let lists: Vec<Vec<usize>> = build_cells(&cells, NUM_CELLS);
    Index { vectors, labels, centroids, cells: lists }
}

/// The members of a cell are those vectors that lie in it, in ascending order.
pub proof fn law_members(cells: Seq<int>, c: int, n: int)
    requires
        0 <= n <= cells.len(),
        n <= usize::MAX,
    ensures
        forall|i: usize|
            #[trigger] members(cells, c, n).contains(i) <==> i < n && cells[i as int] == c,
        forall|a: int, b: int|
            0 <= a < b < members(cells, c, n).len() ==> #[trigger] members(cells, c, n)[a]
                < #[trigger] members(cells, c, n)[b],
    decreases n,
{
    if n > 0 {
        law_members(cells, c, n - 1);
        let before = members(cells, c, n - 1);
        let all = members(cells, c, n);
        assert forall|b: int| 0 <= b < before.len() implies #[trigger] before[b] < n - 1 by {
            assert(before.contains(before[b]));
        }
        if cells[n - 1] == c {
            assert(all == before.push((n - 1) as usize));
            assert forall|i: usize| #[trigger] all.contains(i) <==> i < n && cells[i as int]
                == c by {
                if i == (n - 1) as usize {
                    assert(all[before.len() as int] == i);
                } else {
                    assert(all.contains(i) <==> before.contains(i)) by {
                        if all.contains(i) {
                            let b = choose|b: int| 0 <= b < all.len() && all[b] == i;
                            assert(before[b] == i);
                        }
                        if before.contains(i) {
                            let b = choose|b: int| 0 <= b < before.len() && before[b] == i;
                            assert(all[b] == i);
                        }
                    }
                }
            }
        }
    }
}

/// The number of those of the first `n` vectors that lie in the first `m`
/// cells.
pub open spec fn held(cells: Seq<int>, m: int, n: int) -> int
    decreases m,
{
    if m <= 0 {
        0
    } else {
        held(cells, m - 1, n) + members(cells, m - 1, n).len()
    }
}

proof fn lemma_held_step(cells: Seq<int>, m: int, n: int)
    requires
        0 < n <= cells.len(),
        0 <= m,
        0 <= cells[n - 1],
    ensures
        held(cells, m, n) == held(cells, m, n - 1) + if cells[n - 1] < m {
            1int
        } else {
            0int
        },
    decreases m,
{
    if m > 0 {
        lemma_held_step(cells, m - 1, n);
    }
}

proof fn lemma_held(cells: Seq<int>, m: int, n: int)
    requires
        0 <= n <= cells.len(),
        0 <= m,
        forall|i: int| 0 <= i < n ==> 0 <= #[trigger] cells[i] < m,
    ensures
        held(cells, m, n) == n,
    decreases n,
{
    if n > 0 {
        lemma_held_step(cells, m, n);
        lemma_held(cells, m, n - 1);
    } else {
        lemma_held_none(cells, m);
    }
}

proof fn lemma_held_none(cells: Seq<int>, m: int)
    ensures
        held(cells, m, 0) == 0,
    decreases m,
{
    if m > 0 {
        lemma_held_none(cells, m - 1);
    }
}

proof fn lemma_held_is_offset(ix: &Index, m: int)
    requires
        is_clustered(ix),
        0 <= m <= NUM_CELLS,
    ensures
        cell_offset(ix.cells@, m) == held(
            final_cells(vector_rows(ix.vectors@)),
            m,
            ix.vectors@.len() as int,
        ),
    decreases m,
{
    if m > 0 {
        lemma_held_is_offset(ix, m - 1);
        assert(cell_rows(ix.cells@)[m - 1].len() == ix.cells@[m - 1]@.len());
    }
}

/// Every vector of a clustered index lies in exactly one cell, and only there:
/// the cells speak of existing vectors, each is listed in its own cell alone,
/// and together the cells have as many members as there are vectors.
pub proof fn law_cells_partition_vectors(ix: &Index)
    requires
        is_clustered(ix),
    ensures
        ix.cells_wf(),
        cell_offset(ix.cells@, NUM_CELLS as int) == ix.vectors@.len(),
        forall|i: usize, c: int|
            0 <= c < NUM_CELLS ==> (#[trigger] ix.cells@[c]@.contains(i) <==> i < ix.vectors@.len()
                && final_cells(vector_rows(ix.vectors@))[i as int] == c),
        forall|i: int|
            0 <= i < ix.vectors@.len() ==> 0 <= #[trigger] final_cells(
                vector_rows(ix.vectors@),
            )[i] < NUM_CELLS,
        ix.vectors@.len() <= u32::MAX ==> ix.fits(),
{
    let rows = vector_rows(ix.vectors@);
    let n = rows.len() as int;
    let of = final_cells(rows);
    lemma_lloyd_len(rows, KMEANS_ITERATIONS - 1);
    assert(ix.vectors@.len() <= usize::MAX) by {
        assert(ix.vectors.len() <= usize::MAX);
    }
    assert forall|i: int| 0 <= i < n implies 0 <= #[trigger] of[i] < NUM_CELLS by {
        lemma_nearest_among(
            lloyd(rows, KMEANS_ITERATIONS - 1),
            rows[i],
            NUM_CELLS as int,
        );
    }
    lemma_held(of, NUM_CELLS as int, n);
    lemma_held_is_offset(ix, NUM_CELLS as int);
    assert forall|i: usize, c: int| 0 <= c < NUM_CELLS implies (
    #[trigger] ix.cells@[c]@.contains(i) <==> i < ix.vectors@.len() && of[i as int] == c) by {
        law_members(of, c, n);
    }
    assert forall|c: int, i: int|
        0 <= c < ix.cells@.len() && 0 <= i
            < ix.cells@[c]@.len() implies #[trigger] ix.cells@[c]@[i] < ix.vectors@.len() by {
        assert(ix.cells@[c]@.contains(ix.cells@[c]@[i]));
    }
}

/// The dataset read from the file of a clustered index can be searched, and
/// lists each vector in exactly one cell.
pub proof fn law_built_index_is_searchable(ix: &Index, ds: &Dataset)
    requires
        is_clustered(ix),
        ix.vectors@.len() <= u32::MAX,
        holds(index_bytes(ix), ds),
    ensures
        fault(index_bytes(ix)) is None,
        ds.wf(),
        ds.count == ix.vectors@.len(),
        ds.num_cells == NUM_CELLS,
        forall|c: int|
            0 <= c < NUM_CELLS ==> #[trigger] ds.cell_len(c) == ix.cells@[c]@.len(),
        forall|c: int, i: int|
            0 <= c < NUM_CELLS && 0 <= i < ds.cell_len(c) ==> #[trigger] ds.cell_vector(c, i)
                == ix.cells@[c]@[i],
{
    law_cells_partition_vectors(ix);
    law_load_gives_back_encoded(ix, ds);
    law_encoded_loads_well_formed(ix, ds);
}

/// How large the cells are.
#[derive(Debug, Clone, Copy, PartialEq, Eq, Structural)]
pub struct CellStats {
    pub min: usize,
    pub max: usize,
    pub avg: usize,
    pub empty: usize,
}

/// The number of empty cells among the first `n`.
pub open spec fn empty_among(cells: Seq<Vec<usize>>, n: int) -> int
    decreases n,
{
    if n <= 0 {
        0
    } else {
        empty_among(cells, n - 1) + if cells[n - 1]@.len() == 0 {
            1int
        } else {
            0int
        }
    }
}

/// Measures the cells. The average is over the usual number of cells.
pub fn cell_stats(cells: &[Vec<usize>]) -> (r: CellStats)
    requires
        cell_offset(cells@, cells@.len() as int) <= usize::MAX,
    ensures
        forall|c: int|
            0 <= c < cells@.len() ==> r.min <= (#[trigger] cells@[c])@.len() <= r.max,
        if cells@.len() == 0 {
            r.min == 0 && r.max == 0
        } else {
            &&& exists|c: int| 0 <= c < cells@.len() && r.min == (#[trigger] cells@[c])@.len()
            &&& exists|c: int| 0 <= c < cells@.len() && r.max == (#[trigger] cells@[c])@.len()
        },
        r.avg == cell_offset(cells@, cells@.len() as int) / (NUM_CELLS as int),
        r.empty == empty_among(cells@, cells@.len() as int),
{
    let mut min: usize = 0;
    let mut max: usize = 0;
    let mut sum: usize = 0;
    let mut empty: usize = 0;
    let mut c: usize = 0;
    while c < cells.len()
        invariant
            c <= cells@.len(),
            cell_offset(cells@, cells@.len() as int) <= usize::MAX,
            sum == cell_offset(cells@, c as int),
            empty == empty_among(cells@, c as int),
            empty <= c,
            c == 0 ==> min == 0 && max == 0,
            forall|j: int| 0 <= j < c ==> min <= (#[trigger] cells@[j])@.len() <= max,
            c > 0 ==> exists|j: int| 0 <= j < c && min == (#[trigger] cells@[j])@.len(),
            c > 0 ==> exists|j: int| 0 <= j < c && max == (#[trigger] cells@[j])@.len(),
        decreases cells@.len() - c,
    {
        let len: usize = cells[c].len();
        proof {
            lemma_cell_offset(cells@, c as int, cells@.len() as int);
            assert(cell_rows(cells@)[c as int].len() == len);
        }
        if c == 0 || len < min {
            min = len;
        }
        if len > max {
            max = len;
        }
        if len == 0 {
            empty = empty + 1;
        }
        sum = sum + len;
        c = c + 1;
    }
    CellStats { min, max, avg: sum / NUM_CELLS, empty }
}

} // verus!
