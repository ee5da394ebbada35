//! The reference vectors in memory, with their labels and their cells.

use crate::distance::{box_dist, box_dist_over, distance_i16, excess, lemma_square,
    lemma_sq_dist_bounds, sq_dist, sq_dist_over, DIMS, MAX_DISTANCE};
use crate::ranking::{before, is_nearest, lemma_nearest, listed, nearest, offer};
use vstd::prelude::*;

verus! {

/// The full dataset. All components of all vectors stand in one array,
/// dimension by dimension.
pub struct Dataset {
    /// Number of vectors.
    pub count: usize,
    /// Number of IVF cells.
    pub num_cells: usize,
    /// Labels: nonzero = fraud, zero = legit.
    pub labels: Vec<u8>,
    /// One centroid per cell.
    pub centroids: Vec<[i16; DIMS]>,
    /// Lower corner of each cell's bounding box; empty where boxes are absent.
    pub bbox_min: Vec<[i16; DIMS]>,
    /// Upper corner of each cell's bounding box; empty where boxes are absent.
    pub bbox_max: Vec<[i16; DIMS]>,
    /// Offset and length of each cell in `cell_indices`.
    pub cell_meta: Vec<(u32, u32)>,
    /// The vectors of all cells, cell after cell.
    pub cell_indices: Vec<u32>,
    /// The component `d` of vector `i` stands at `d * count + i`.
    pub dims: Vec<i16>,
}

/// The number of positions in `indices` whose label is nonzero.
pub open spec fn frauds_among(labels: Seq<u8>, indices: Seq<usize>) -> nat
    decreases indices.len(),
{
    if indices.len() == 0 {
        0
    } else {
        frauds_among(labels, indices.drop_last()) + if labels[indices.last() as int] != 0 {
            1nat
        } else {
            0nat
        }
    }
}

impl Dataset {
    /// Vector `i`.
    pub open spec fn vector(&self, i: int) -> Seq<i16> {
        Seq::new(DIMS as nat, |d: int| self.dims@[d * self.count + i])
    }

    /// Whether every component of vector `i` is present.
    pub open spec fn has_vector(&self, i: int) -> bool {
        0 <= i && (DIMS - 1) * self.count + i < self.dims@.len()
    }

    /// The number of vectors in cell `c`.
    pub open spec fn cell_len(&self, c: int) -> int {
        self.cell_meta@[c].1 as int
    }

    /// The `i`-th vector of cell `c`.
    pub open spec fn cell_vector(&self, c: int, i: int) -> int {
        self.cell_indices@[self.cell_meta@[c].0 + i] as int
    }

    /// The `i`-th vector of cell `c` as a candidate for the neighbors of a
    /// query: its distance, and its label.
    pub open spec fn candidate(&self, query: Seq<i16>, c: int, i: int) -> (i64, usize) {
        let v = self.cell_vector(c, i);
        (sq_dist(query, self.vector(v)) as i64, self.labels@[v] as usize)
    }

    /// Whether the vectors of cell `c` are present, and addressed in 32 bits.
    pub open spec fn cell_wf(&self, c: int) -> bool {
        self.cell_len(c) > 0 ==> {
            &&& self.cell_meta@[c].0 + self.cell_len(c) <= self.cell_indices@.len()
            &&& self.cell_meta@[c].0 + self.cell_len(c) <= 0x1_0000_0000
            &&& forall|i: int|
                self.cell_meta@[c].0 <= i < self.cell_meta@[c].0 + self.cell_len(c)
                    ==> #[trigger] self.cell_indices@[i] < self.count
        }
    }

    /// Whether every vector, label and cell that the counts announce is present.
    pub open spec fn wf(&self) -> bool {
        &&& self.count <= self.labels@.len()
        &&& DIMS * self.count <= self.dims@.len()
        &&& self.num_cells <= self.centroids@.len()
        &&& self.num_cells <= self.cell_meta@.len()
        &&& self.bbox_min@.len() > 0 ==> self.num_cells <= self.bbox_min@.len()
        &&& self.bbox_min@.len() > 0 ==> self.num_cells <= self.bbox_max@.len()
        &&& forall|c: int| 0 <= c < self.num_cells ==> #[trigger] self.cell_wf(c)
    }

    /// What `lower_bound` returns for cell `c`.
    pub open spec fn bound_of(&self, query: Seq<i16>, c: int) -> int {
        if self.cell_len(c) == 0 {
            i64::MAX as int
        } else if self.bbox_min@.len() == 0 {
            sq_dist(query, self.centroids@[c]@)
        } else {
            box_dist(query, self.bbox_min@[c]@, self.bbox_max@[c]@)
        }
    }

    /// The distances of all vectors from a query.
    pub open spec fn distances(&self, query: Seq<i16>) -> Seq<i64> {
        Seq::new(self.count as nat, |i: int| sq_dist(query, self.vector(i)) as i64)
    }

    /// Whether vector `a` comes before vector `b` for a query: it is nearer, or
    /// as near and of lower number.
    pub open spec fn nearer(&self, query: Seq<i16>, a: int, b: int) -> bool {
        ||| sq_dist(query, self.vector(a)) < sq_dist(query, self.vector(b))
        ||| sq_dist(query, self.vector(a)) == sq_dist(query, self.vector(b)) && a < b
    }

    /// Whether `indices` are the `k` nearest vectors, nearest first.
    pub open spec fn is_knn(&self, query: Seq<i16>, k: nat, indices: Seq<usize>) -> bool {
        &&& indices.len() == if self.count <= k {
            self.count as nat
        } else {
            k
        }
        &&& forall|j: int| 0 <= j < indices.len() ==> #[trigger] indices[j] < self.count
        &&& forall|i: int, j: int|
            0 <= i < j < indices.len() ==> self.nearer(
                query,
                #[trigger] indices[i] as int,
                #[trigger] indices[j] as int,
            )
        &&& forall|t: int, j: int|
            0 <= t < self.count && !indices.contains(t as usize) && 0 <= j < indices.len()
                ==> #[trigger] self.nearer(query, indices[j] as int, t)
    }

    /// A dataset without vectors.
    pub fn new() -> (r: Self)
        ensures
            r.count == 0,
            r.num_cells == 0,
            r.labels@ == Seq::<u8>::empty(),
            r.centroids@ == Seq::<[i16; DIMS]>::empty(),
            r.bbox_min@ == Seq::<[i16; DIMS]>::empty(),
            r.bbox_max@ == Seq::<[i16; DIMS]>::empty(),
            r.cell_meta@ == Seq::<(u32, u32)>::empty(),
            r.cell_indices@ == Seq::<u32>::empty(),
            r.dims@ == Seq::<i16>::empty(),
            r.wf(),
    {
        Dataset {
            count: 0,
            num_cells: 0,
            labels: Vec::new(),
            centroids: Vec::new(),
            bbox_min: Vec::new(),
            bbox_max: Vec::new(),
            cell_meta: Vec::new(),
            cell_indices: Vec::new(),
            dims: Vec::new(),
        }
    }

    /// Get a single dimension value for a vector.
    pub fn dim(&self, dim_idx: usize, vec_idx: usize) -> (r: i16)
        requires
            dim_idx * self.count + vec_idx < self.dims@.len(),
        ensures
            r == self.dims@[dim_idx * self.count + vec_idx],
    {
        proof {
            assert(0 <= dim_idx * self.count) by (nonlinear_arith);
        }
        let len: usize = self.dims.len();
        self.dims[dim_idx * self.count + vec_idx]
    }

    /// Compute lower bound on L2 squared distance from query to any vector in
    /// a cell, from its bounding box: the sum over the dimensions of
    /// max(0, query - max)^2 + max(0, min - query)^2. Without bounding boxes the distance to
    /// the centroid takes its place. Returns `i64::MAX` if the cell has no
    /// vectors.
    pub fn lower_bound(&self, query: &[i16; DIMS], cell_idx: usize) -> (r: i64)
        requires
            cell_idx < self.cell_meta@.len(),
            self.cell_len(cell_idx as int) > 0 && self.bbox_min@.len() == 0 ==> cell_idx
                < self.centroids@.len(),
            self.cell_len(cell_idx as int) > 0 && self.bbox_min@.len() > 0 ==> cell_idx
                < self.bbox_min@.len() && cell_idx < self.bbox_max@.len(),
        ensures
            r == self.bound_of(query@, cell_idx as int),
    {
        if self.cell_meta[cell_idx].1 == 0 {
            return i64::MAX;
        }
        if self.bbox_min.len() == 0 {
            return distance_i16(query, &self.centroids[cell_idx]);
        }
        let lo: &[i16; DIMS] = &self.bbox_min[cell_idx];
        let hi: &[i16; DIMS] = &self.bbox_max[cell_idx];
        let mut acc: i64 = 0;
        let mut d: usize = 0;
        while d < DIMS
            invariant
                d <= DIMS,
                acc == box_dist_over(query@, lo@, hi@, d as nat),
                0 <= acc <= 8_589_672_450 * d,
            decreases DIMS - d,
        {
            let q: i64 = query[d] as i64;
            let l: i64 = lo[d] as i64;
            let h: i64 = hi[d] as i64;
            let above: i64 = if q > h {
                q - h
            } else {
                0
            };
            let below: i64 = if q < l {
                l - q
            } else {
                0
            };
            proof {
                lemma_square(above as int);
                lemma_square(below as int);
                assert(above == excess(q - h) && below == excess(l - q));
            }
            acc = acc + above * above + below * below;
            d = d + 1;
        }
        acc
    }

    /// Compute L2 distance between a query vector and a reference vector.
    pub fn distance(&self, query: &[i16; DIMS], idx: usize) -> (r: i64)
        requires
            self.has_vector(idx as int),
        ensures
            r == sq_dist(query@, self.vector(idx as int)),
            0 <= r <= MAX_DISTANCE,
    {
        let mut sum: i64 = 0;
        let mut d: usize = 0;
        let ghost v = self.vector(idx as int);
        while d < DIMS
            invariant
                d <= DIMS,
                self.has_vector(idx as int),
                v == self.vector(idx as int),
                sum == sq_dist_over(query@, v, d as nat),
                0 <= sum <= 4_294_836_225 * d,
            decreases DIMS - d,
        {
            proof {
                assert(d * self.count <= (DIMS - 1) * self.count) by (nonlinear_arith)
                    requires
                        d <= DIMS - 1,
                        0 <= self.count,
                ;
            }
            let component: i16 = self.dim(d, idx);
            let diff: i64 = query[d] as i64 - component as i64;
            proof {
                assert(v[d as int] == component);
                lemma_square(diff as int);
            }
            sum = sum + diff * diff;
            d = d + 1;
        }
        sum
    }

    /// Find k nearest neighbors by comparing the query with every vector.
    /// Returns their numbers, nearest first, and how many of them are frauds.
    pub fn knn_brute_force(&self, query: &[i16; DIMS], k: usize) -> (r: (Vec<usize>, usize))
        requires
            k > 0 || self.count == 0,
            self.count <= self.labels@.len(),
            DIMS * self.count <= self.dims@.len(),
        ensures
            self.is_knn(query@, k as nat, r.0@),
            r.1 == frauds_among(self.labels@, r.0@),
    {
        let ghost dists = self.distances(query@);
        let mut best: Vec<(i64, usize)> = Vec::new();
        let mut i: usize = 0;
        assert(dists.take(0) =~= Seq::<i64>::empty());
        while i < self.count
            invariant
                i <= self.count,
                self.count <= self.labels@.len(),
                DIMS * self.count <= self.dims@.len(),
                dists == self.distances(query@),
                best@ == nearest(dists.take(i as int), k as nat),
                best@.len() <= k,
            decreases self.count - i,
        {
            let dist: i64 = self.distance(query, i);
            offer(&mut best, k, dist, i);
            proof {
                assert(dists.take(i + 1).drop_last() =~= dists.take(i as int));
                assert(dists.take(i + 1).last() == dist);
            }
            i = i + 1;
        }
        assert(dists.take(self.count as int) =~= dists);
        proof {
            lemma_nearest(dists, k as nat);
        }
        let mut indices: Vec<usize> = Vec::new();
        let mut fraud_count: usize = 0;
        let mut j: usize = 0;
        while j < best.len()
            invariant
                j <= best@.len(),
                j == indices@.len(),
                fraud_count <= j,
                self.count <= self.labels@.len(),
                dists == self.distances(query@),
                is_nearest(best@, dists, k as nat),
                forall|i: int| 0 <= i < j ==> #[trigger] indices@[i] == best@[i].1,
                fraud_count == frauds_among(self.labels@, indices@),
            decreases best@.len() - j,
        {
            let idx: usize = best[j].1;
            if self.labels[idx] != 0 {
                fraud_count = fraud_count + 1;
            }
            let ghost shorter = indices@;
            indices.push(idx);
            assert(indices@.drop_last() =~= shorter);
            j = j + 1;
        }
        proof {
            self.lemma_knn(query@, k as nat, best@, indices@);
        }
        (indices, fraud_count)
    }

    /// A nearest list of all distances names the nearest vectors.
    pub proof fn lemma_knn(
        &self,
        query: Seq<i16>,
        k: nat,
        best: Seq<(i64, usize)>,
        indices: Seq<usize>,
    )
        requires
            is_nearest(best, self.distances(query), k),
            indices.len() == best.len(),
            forall|i: int| 0 <= i < indices.len() ==> #[trigger] indices[i] == best[i].1,
        ensures
            self.is_knn(query, k, indices),
    {
        let dists = self.distances(query);
        assert forall|i: int| 0 <= i < self.count implies #[trigger] dists[i] == sq_dist(
            query,
            self.vector(i),
        ) by {
            lemma_sq_dist_bounds(query, self.vector(i), DIMS as nat);
        }
        assert forall|i: int, j: int| 0 <= i < j < indices.len() implies self.nearer(
            query,
            #[trigger] indices[i] as int,
            #[trigger] indices[j] as int,
        ) by {
            assert(before(best[i], best[j]));
        }
        assert forall|t: int, j: int|
            0 <= t < self.count && !indices.contains(t as usize) && 0 <= j
                < indices.len() implies #[trigger] self.nearer(query, indices[j] as int, t) by {
            if listed(best, t) {
                let m = choose|m: int| 0 <= m < best.len() && (#[trigger] best[m]).1 == t;
                assert(indices[m] == t as usize);
            }
            assert(dists[t] == sq_dist(query, self.vector(t)));
            assert(best[j].1 == indices[j]);
        }
    }

    /// Tests whether every vector, label and cell that the counts announce is
    /// present.
    pub fn is_valid(&self) -> (r: bool)
        ensures
            r == self.wf(),
    {
        if self.count > self.labels.len() || self.count > self.dims.len() / DIMS {
            return false;
        }
        if self.num_cells > self.centroids.len() || self.num_cells > self.cell_meta.len() {
            return false;
        }
        if self.bbox_min.len() > 0 && (self.num_cells > self.bbox_min.len() || self.num_cells
            > self.bbox_max.len()) {
            return false;
        }
        let mut c: usize = 0;
        while c < self.num_cells
            invariant
                c <= self.num_cells <= self.cell_meta@.len(),
                forall|b: int| 0 <= b < c ==> #[trigger] self.cell_wf(b),
            decreases self.num_cells - c,
        {
            if !self.is_cell_valid(c) {
                return false;
            }
            c = c + 1;
        }
        true
    }

    /// Tests whether the vectors of one cell are present.
    fn is_cell_valid(&self, c: usize) -> (r: bool)
        requires
            c < self.cell_meta@.len(),
        ensures
            r == self.cell_wf(c as int),
    {
        let off: u64 = self.cell_meta[c].0 as u64;
        let end: u64 = off + self.cell_meta[c].1 as u64;
        if off == end {
            return true;
        }
        let len: usize = self.cell_indices.len();
        if end > len as u64 || end > 0x1_0000_0000 {
            return false;
        }
        let mut i: u64 = off;
        while i < end
            invariant
                c < self.cell_meta@.len(),
                off == self.cell_meta@[c as int].0,
                end == off + self.cell_len(c as int),
                off <= i <= end <= len,
                len == self.cell_indices@.len(),
                forall|j: int| off <= j < i ==> #[trigger] self.cell_indices@[j] < self.count,
            decreases end - i,
        {
            if self.cell_indices[i as usize] as u64 >= self.count as u64 {
                return false;
            }
            i = i + 1;
        }
        true
    }
}

/// There is only one list of the `k` nearest vectors.
pub proof fn law_knn_is_unique(
    ds: &Dataset,
    query: Seq<i16>,
    k: nat,
    a: Seq<usize>,
    b: Seq<usize>,
)
    requires
        ds.is_knn(query, k, a),
        ds.is_knn(query, k, b),
    ensures
        a == b,
{
    lemma_same_start(ds, query, k, a, b, a.len() as int);
    assert(a =~= b);
}

/// Two lists of the `k` nearest vectors start alike.
proof fn lemma_same_start(
    ds: &Dataset,
    query: Seq<i16>,
    k: nat,
    a: Seq<usize>,
    b: Seq<usize>,
    n: int,
)
    requires
        ds.is_knn(query, k, a),
        ds.is_knn(query, k, b),
        0 <= n <= a.len(),
    ensures
        forall|j: int| 0 <= j < n ==> #[trigger] a[j] == b[j],
    decreases n,
{
    if n > 0 {
        lemma_same_start(ds, query, k, a, b, n - 1);
        let j = n - 1;
        let x = a[j];
        let y = b[j];
        if x != y {
            lemma_no_earlier(ds, query, k, a, b, j);
            lemma_no_earlier(ds, query, k, b, a, j);
        }
    }
}

/// Where two lists start alike, what stands next in the second one does not
/// come after what stands next in the first one.
proof fn lemma_no_earlier(
    ds: &Dataset,
    query: Seq<i16>,
    k: nat,
    a: Seq<usize>,
    b: Seq<usize>,
    j: int,
)
    requires
        ds.is_knn(query, k, a),
        ds.is_knn(query, k, b),
        0 <= j < a.len(),
        forall|m: int| 0 <= m < j ==> #[trigger] a[m] == b[m],
        a[j] != b[j],
    ensures
        ds.nearer(query, b[j] as int, a[j] as int),
{
    let x = a[j];
    if b.contains(x) {
        let m = choose|m: int| 0 <= m < b.len() && b[m] == x;
        if m < j {
            assert(a[m] == b[m]);
            assert(ds.nearer(query, a[m] as int, a[j] as int));
        } else {
            assert(ds.nearer(query, b[j] as int, b[m] as int));
        }
    } else {
        assert(!b.contains((x as int) as usize));
        assert(ds.nearer(query, b[j] as int, x as int));
    }
}

/// The first of the `k + 1` nearest vectors are the `k` nearest.
proof fn lemma_knn_start(ds: &Dataset, query: Seq<i16>, k: nat, b: Seq<usize>)
    requires
        ds.is_knn(query, k + 1, b),
    ensures
        ds.count <= k ==> ds.is_knn(query, k, b),
        ds.count > k ==> ds.is_knn(query, k, b.take(k as int)),
{
    if ds.count > k {
        let a = b.take(k as int);
        assert forall|i: int, j: int| 0 <= i < j < a.len() implies ds.nearer(
            query,
            #[trigger] a[i] as int,
            #[trigger] a[j] as int,
        ) by {
            assert(ds.nearer(query, b[i] as int, b[j] as int));
        }
        assert forall|t: int, j: int|
            0 <= t < ds.count && !a.contains(t as usize) && 0 <= j
                < a.len() implies #[trigger] ds.nearer(query, a[j] as int, t) by {
            if b.contains(t as usize) {
                let m = choose|m: int| 0 <= m < b.len() && b[m] == t as usize;
                if m < k {
                    assert(a[m] == t as usize);
                }
                assert(ds.nearer(query, b[j] as int, b[m] as int));
            } else {
                assert(ds.nearer(query, b[j] as int, t));
            }
        }
    }
}

/// The `k` nearest vectors start the list of the `k + 1` nearest, which holds at
/// most one fraud more.
pub proof fn law_knn_grows(
    ds: &Dataset,
    query: Seq<i16>,
    k: nat,
    a: Seq<usize>,
    b: Seq<usize>,
)
    requires
        ds.is_knn(query, k, a),
        ds.is_knn(query, k + 1, b),
    ensures
        a == b.take(a.len() as int),
        frauds_among(ds.labels@, a) <= frauds_among(ds.labels@, b) <= frauds_among(ds.labels@, a)
            + 1,
        k >= ds.count ==> a == b,
{
    lemma_knn_start(ds, query, k, b);
    if ds.count <= k {
        law_knn_is_unique(ds, query, k, a, b);
        assert(b.take(a.len() as int) =~= b);
    } else {
        law_knn_is_unique(ds, query, k, a, b.take(k as int));
        assert(b.drop_last() =~= b.take(k as int));
    }
}

/// All vectors in the order of their numbers.
pub open spec fn all_vectors(ds: &Dataset) -> Seq<usize> {
    Seq::new(ds.count as nat, |i: int| i as usize)
}

proof fn lemma_frauds_fold(labels: Seq<u8>, s: Seq<usize>, f: spec_fn(nat, usize) -> nat)
    requires
        f == |n: nat, i: usize|
            n + if labels[i as int] != 0 {
                1nat
            } else {
                0nat
            },
    ensures
        frauds_among(labels, s) == s.fold_left(0nat, f),
    decreases s.len(),
{
    if s.len() > 0 {
        lemma_frauds_fold(labels, s.drop_last(), f);
    }
}

/// For a large `k` the nearest vectors are all vectors, each one once, and the
/// frauds among them all frauds.
pub proof fn law_knn_of_all(ds: &Dataset, query: Seq<i16>, k: nat, a: Seq<usize>)
    requires
        k >= ds.count,
        ds.is_knn(query, k, a),
    ensures
        a.len() == ds.count,
        a.no_duplicates(),
        forall|t: int| 0 <= t < ds.count ==> #[trigger] a.contains(t as usize),
        a.to_multiset() == all_vectors(ds).to_multiset(),
        frauds_among(ds.labels@, a) == frauds_among(ds.labels@, all_vectors(ds)),
{
    broadcast use vstd::seq_lib::group_to_multiset_ensures;

    let all = all_vectors(ds);
    assert forall|i: int, j: int| 0 <= i < a.len() && 0 <= j < a.len() && i != j implies a[i]
        != a[j] by {
        if i < j {
            assert(ds.nearer(query, a[i] as int, a[j] as int));
        } else {
            assert(ds.nearer(query, a[j] as int, a[i] as int));
        }
    }
    assert(a.no_duplicates());
    lemma_all_present(a, ds.count);
    assert(all.no_duplicates());
    a.lemma_multiset_has_no_duplicates();
    all.lemma_multiset_has_no_duplicates();
    assert forall|x: usize| a.to_multiset().count(x) == #[trigger] all.to_multiset().count(x) by {
        assert(a.contains(x) <==> x < ds.count) by {
            if a.contains(x) {
                let j = choose|j: int| 0 <= j < a.len() && a[j] == x;
                assert(a[j] < ds.count);
            }
            if x < ds.count {
                assert(a.contains((x as int) as usize));
            }
        }
        assert(all.contains(x) <==> x < ds.count) by {
            if x < ds.count {
                assert(all[x as int] == x);
            }
        }
    }
    assert(a.to_multiset() =~= all.to_multiset());
    let labels = ds.labels@;
    let f = |n: nat, i: usize|
        n + if labels[i as int] != 0 {
            1nat
        } else {
            0nat
        };
    lemma_frauds_fold(labels, a, f);
    lemma_frauds_fold(labels, all, f);
    vstd::seq_lib::lemma_fold_left_permutation(a, all, f, 0nat);
}

/// As many distinct numbers below `n` as there are include them all.
proof fn lemma_all_present(a: Seq<usize>, n: usize)
    requires
        a.len() == n,
        a.no_duplicates(),
        forall|j: int| 0 <= j < a.len() ==> #[trigger] a[j] < n,
    ensures
        forall|t: int| 0 <= t < n ==> #[trigger] a.contains(t as usize),
{
    let numbers = a.map_values(|x: usize| x as int);
    let all = vstd::set_lib::set_int_range(0, n as int);
    vstd::set_lib::lemma_int_range(0, n as int);
    assert(numbers.no_duplicates());
    numbers.unique_seq_to_set();
    assert(numbers.to_set().subset_of(all));
    vstd::set_lib::lemma_subset_equality(numbers.to_set(), all);
    assert forall|t: int| 0 <= t < n implies #[trigger] a.contains(t as usize) by {
        assert(all.contains(t));
        assert(numbers.contains(t));
        let j = choose|j: int| 0 <= j < numbers.len() && numbers[j] == t;
        assert(a[j] == t as usize);
    }
}

/// The lower bound of a cell never exceeds the distance of a vector of the
/// cell, where the cell's bounding box encloses that vector.
pub proof fn law_lower_bound(ds: &Dataset, query: Seq<i16>, c: int, i: int)
    requires
        0 <= i < ds.cell_len(c),
        ds.bbox_min@.len() > 0,
        forall|d: int|
            0 <= d < DIMS ==> #[trigger] ds.bbox_min@[c]@[d] <= ds.vector(ds.cell_vector(c, i))[d]
                && ds.vector(ds.cell_vector(c, i))[d] <= ds.bbox_max@[c]@[d],
    ensures
        ds.bound_of(query, c) <= sq_dist(query, ds.vector(ds.cell_vector(c, i))),
{
    let v = ds.vector(ds.cell_vector(c, i));
    let lo = ds.bbox_min@[c]@;
    let hi = ds.bbox_max@[c]@;
    assert forall|d: int| 0 <= d < DIMS implies #[trigger] lo[d] <= v[d] && v[d] <= hi[d] by {
        assert(ds.bbox_min@[c]@[d] <= ds.vector(ds.cell_vector(c, i))[d]);
    }
    crate::distance::law_box_distance_is_lower_bound(query, v, lo, hi);
}

} // verus!
