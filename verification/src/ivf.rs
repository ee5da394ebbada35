//! IVF (Inverted File Index) for sub-linear vector search.
//!
//! The vectors of a dataset are grouped in cells, each with a centroid. A
//! search scans the cells whose centroids are nearest to the query and votes
//! among the nearest vectors that it met.

use crate::dataset::Dataset;
use crate::distance::{distance_i16, lemma_sq_dist_bounds, sq_dist, DIMS, MAX_DISTANCE};
use crate::ranking::{ascending, lemma_nearest, lemma_offered_ascending, nearest, offer, offered};
use vstd::prelude::*;

verus! {

pub const IVF_NPROBE_EASY: usize = 1;

pub const IVF_NPROBE_HARD: usize = 8;

/// Expanded probe when the result is ambiguous. No phase probes more cells.
pub const IVF_NPROBE_REPAIR: usize = 48;

/// Early stopping threshold: neighbors at most this far are good enough.
pub const IVF_EARLY_DISTANCE_LIMIT: i64 = 200_000;

/// Number of partition keys.
pub const IVF_NPARTITIONS: usize = 16;

/// Number of cells that one partition lists.
pub const PARTITION_CELLS: usize = 8;

/// Most neighbors that one search votes among.
pub const MAX_NEIGHBORS: usize = 5;

/// Above this a quantized feature sets its bit of the partition key: one half,
/// in steps of 1/10000.
pub const KEY_THRESHOLD: i16 = 5_000;

/// The partition key of a quantized vector: one bit for each of four features
/// that exceeds one half.
pub open spec fn key_of(q: Seq<i16>) -> int {
    (if q[0] > KEY_THRESHOLD {
        1int
    } else {
        0
    }) + (if q[7] > KEY_THRESHOLD {
        2int
    } else {
        0
    }) + (if q[8] > KEY_THRESHOLD {
        4int
    } else {
        0
    }) + (if q[2] > KEY_THRESHOLD {
        8int
    } else {
        0
    })
}

/// Compute partition key from a quantized query. Uses 4 features that are
/// stable across different fraud patterns:
/// - bit 0: amount above 5000 (high-value tx)
/// - bit 1: more than 500 km from home (far from home)
/// - bit 2: more than 10 transactions within 24 hours (many recent tx)
/// - bit 3: amount against average above 0.5 (unusual amount)
pub fn partition_key(q: &[i16; DIMS]) -> (r: u8)
    ensures
        r == key_of(q@),
        r < IVF_NPARTITIONS,
{
    let mut key: u8 = 0;
    if q[0] > KEY_THRESHOLD {
        key = key + 1;
    }
    if q[7] > KEY_THRESHOLD {
        key = key + 2;
    }
    if q[8] > KEY_THRESHOLD {
        key = key + 4;
    }
    if q[2] > KEY_THRESHOLD {
        key = key + 8;
    }
    key
}

/// Lists, for each partition key, up to eight cells whose centroids have it.
pub struct IVFIndex {
    pub num_cells: usize,
    /// The cells of each partition.
    pub part_by_key: Vec<[u32; PARTITION_CELLS]>,
    /// How many cells each partition lists.
    pub part_count: Vec<u32>,
}

/// The first `n` cells of `ds` that have partition key `key`, in order.
pub open spec fn cells_with_key(ds: &Dataset, key: int, n: nat) -> Seq<u32>
    decreases n,
{
    if n == 0 {
        Seq::empty()
    } else {
        let shorter = cells_with_key(ds, key, (n - 1) as nat);
        if key_of(ds.centroids@[n - 1]@) == key {
            shorter.push((n - 1) as u32)
        } else {
            shorter
        }
    }
}

/// The number of frauds among the first `n` vectors of cell `c`.
pub open spec fn cell_frauds(ds: &Dataset, c: int, n: nat) -> nat
    decreases n,
{
    if n == 0 {
        0
    } else {
        cell_frauds(ds, c, (n - 1) as nat) + if ds.labels@[ds.cell_vector(c, n - 1)] != 0 {
            1nat
        } else {
            0nat
        }
    }
}

/// Whether the vectors of cell `c` have labels, and are addressed in 32 bits.
pub open spec fn cell_is_labelled(ds: &Dataset, c: int) -> bool {
    ds.cell_len(c) > 0 ==> {
        &&& ds.cell_meta@[c].0 + ds.cell_len(c) <= ds.cell_indices@.len()
        &&& ds.cell_meta@[c].0 + ds.cell_len(c) <= 0x1_0000_0000
        &&& forall|i: int|
            ds.cell_meta@[c].0 <= i < ds.cell_meta@[c].0 + ds.cell_len(c)
                ==> #[trigger] ds.cell_indices@[i] < ds.labels@.len()
    }
}

/// The list of neighbors after the first `n` vectors of cell `c` have been
/// offered to it. A neighbor is tagged with its label.
pub open spec fn with_cell(
    ds: &Dataset,
    q: Seq<i16>,
    k: nat,
    c: int,
    n: nat,
    best: Seq<(i64, usize)>,
) -> Seq<(i64, usize)>
    decreases n,
{
    if n == 0 {
        best
    } else {
        let (dist, label) = ds.candidate(q, c, n - 1);
        offered(with_cell(ds, q, k, c, (n - 1) as nat, best), k, dist, label)
    }
}

/// Whether the scan passes over cell `c`: the list is full, and its last
/// neighbor is no farther than the centroid, or than the lower bound.
pub open spec fn passes_over(
    ds: &Dataset,
    q: Seq<i16>,
    k: nat,
    c: int,
    best: Seq<(i64, usize)>,
) -> bool {
    best.len() == k && (sq_dist(q, ds.centroids@[c]@) >= best[k - 1].0 || ds.bound_of(q, c)
        >= best[k - 1].0)
}

/// Whether the scan may end at cell `c`: the list is full of near neighbors and
/// the centroid is far off.
pub open spec fn good_enough(
    ds: &Dataset,
    q: Seq<i16>,
    k: nat,
    c: int,
    best: Seq<(i64, usize)>,
) -> bool {
    best.len() == k && best[k - 1].0 <= IVF_EARLY_DISTANCE_LIMIT && sq_dist(q, ds.centroids@[c]@)
        > 4 * IVF_EARLY_DISTANCE_LIMIT
}

/// The list of neighbors after the cells of `order` from position `i` on have
/// been scanned.
pub open spec fn scanned(
    ds: &Dataset,
    q: Seq<i16>,
    k: nat,
    order: Seq<(i64, usize)>,
    i: int,
    best: Seq<(i64, usize)>,
) -> Seq<(i64, usize)>
    decreases order.len() - i,
{
    if i < 0 || i >= order.len() {
        best
    } else {
        let c = order[i].1 as int;
        if passes_over(ds, q, k, c, best) {
            scanned(ds, q, k, order, i + 1, best)
        } else {
            scanned(
                ds,
                q,
                k,
                order,
                i + 1,
                with_cell(ds, q, k, c, ds.cell_len(c) as nat, best),
            )
        }
    }
}

/// The number of frauds in a list of neighbors.
pub open spec fn frauds_in(best: Seq<(i64, usize)>) -> nat
    decreases best.len(),
{
    if best.len() == 0 {
        0
    } else {
        frauds_in(best.drop_last()) + if best.last().1 != 0 {
            1nat
        } else {
            0nat
        }
    }
}

/// The value of bit `i`.
pub open spec fn bit(i: nat) -> nat
    decreases i,
{
    if i == 0 {
        1
    } else {
        2 * bit((i - 1) as nat)
    }
}

/// The fraud pattern of a list of neighbors: bit `i` stands for neighbor `i`.
pub open spec fn pattern_of(best: Seq<(i64, usize)>) -> nat
    decreases best.len(),
{
    if best.len() == 0 {
        0
    } else {
        pattern_of(best.drop_last()) + if best.last().1 != 0 {
            bit((best.len() - 1) as nat)
        } else {
            0
        }
    }
}

/// The largest centroid gap at which a fraud pattern is risky, if it ever is.
pub open spec fn risky_gap(nprobe: int, bits: int) -> Option<int> {
    if nprobe == 12 {
        if bits == 0b00110 {
            Some(1_600_000int)
        } else if bits == 0b01010 {
            Some(3_800_000int)
        } else if bits == 0b01100 {
            Some(1_000_000int)
        } else if bits == 0b10010 {
            Some(1_800_000int)
        } else if bits == 0b10011 {
            Some(500_000int)
        } else if bits == 0b11100 {
            Some(150_000int)
        } else {
            None
        }
    } else {
        if bits == 0b00110 || bits == 0b01010 || bits == 0b10011 {
            Some(500_000int)
        } else if bits == 0b01100 {
            Some(600_000int)
        } else if bits == 0b10010 {
            Some(1_200_000int)
        } else if bits == 0b10110 {
            Some(700_000int)
        } else if bits == 0b11100 {
            Some(150_000int)
        } else {
            None
        }
    }
}

/// Whether a fraud pattern is risky: it is one of the sensitive ones, there is
/// a next centroid, and it is hardly farther than the last one probed.
pub open spec fn risky(nprobe: int, bits: int, probe: int, next: int) -> bool {
    match risky_gap(nprobe, bits) {
        Some(limit) => next != i64::MAX && next - probe <= limit,
        None => false,
    }
}

impl IVFIndex {
    /// Whether each partition key has a list of at most eight cells.
    pub open spec fn wf(&self) -> bool {
        &&& self.part_by_key@.len() >= IVF_NPARTITIONS
        &&& self.part_count@.len() >= IVF_NPARTITIONS
        &&& forall|key: int|
            0 <= key < IVF_NPARTITIONS ==> #[trigger] self.part_count@[key] <= PARTITION_CELLS
    }

    /// Whether partition `key` lists cell `c`.
    pub open spec fn lists(&self, key: int, c: int) -> bool {
        exists|i: int|
            0 <= i < self.part_count@[key] && #[trigger] self.part_by_key@[key]@[i] == c
    }

    /// The distance by which cell `c` is ranked: that of its centroid, less one
    /// where the partition of the query lists the cell.
    pub open spec fn boosted(&self, ds: &Dataset, q: Seq<i16>, c: int) -> int {
        sq_dist(q, ds.centroids@[c]@) - if self.lists(key_of(q), c) {
            1int
        } else {
            0
        }
    }

    /// The nearest cells, nearest first.
    pub open spec fn cell_order(&self, ds: &Dataset, q: Seq<i16>) -> Seq<(i64, usize)> {
        nearest(
            Seq::new(ds.num_cells as nat, |c: int| self.boosted(ds, q, c) as i64),
            IVF_NPROBE_REPAIR as nat,
        )
    }

    /// How many cells a phase probes.
    pub open spec fn probes(&self, ds: &Dataset, nprobe: nat) -> nat {
        if nprobe <= IVF_NPROBE_REPAIR && nprobe <= ds.num_cells {
            nprobe
        } else if ds.num_cells <= IVF_NPROBE_REPAIR {
            ds.num_cells as nat
        } else {
            IVF_NPROBE_REPAIR as nat
        }
    }

    /// The neighbors that one phase finds.
    pub open spec fn neighbors(&self, ds: &Dataset, q: Seq<i16>, k: nat, nprobe: nat) -> Seq<
        (i64, usize),
    > {
        scanned(
            ds,
            q,
            k,
            self.cell_order(ds, q).take(self.probes(ds, nprobe) as int),
            0,
            Seq::empty(),
        )
    }

    /// The ranking distance of the last cell that a phase probes.
    pub open spec fn probe_distance(&self, ds: &Dataset, q: Seq<i16>, nprobe: nat) -> int {
        if self.probes(ds, nprobe) > 0 {
            self.cell_order(ds, q)[self.probes(ds, nprobe) - 1].0 as int
        } else {
            i64::MAX as int
        }
    }

    /// The ranking distance of the first ranked cell that a phase no longer
    /// probes; `i64::MAX` where there is none. Forty-eight cells are ranked, so
    /// there is none either where all of these are probed.
    pub open spec fn next_distance(&self, ds: &Dataset, q: Seq<i16>, nprobe: nat) -> int {
        if self.probes(ds, nprobe) < self.cell_order(ds, q).len() {
            self.cell_order(ds, q)[self.probes(ds, nprobe) as int].0 as int
        } else {
            i64::MAX as int
        }
    }

    /// Whether the first phase is to be repeated with an expanded probe: its
    /// neighbors disagree, more cells can be probed, and the pattern is risky.
    pub open spec fn needs_repair(&self, ds: &Dataset, q: Seq<i16>, k: nat, nprobe: nat) -> bool {
        let best = self.neighbors(ds, q, k, nprobe);
        &&& 0 < frauds_in(best) < k
        &&& nprobe < self.probes(ds, IVF_NPROBE_REPAIR as nat)
        &&& risky(
            nprobe as int,
            pattern_of(best) as int,
            self.probe_distance(ds, q, nprobe),
            self.next_distance(ds, q, nprobe),
        )
    }

    /// The fraud count that a search returns.
    pub open spec fn vote(&self, ds: &Dataset, q: Seq<i16>, k: nat, nprobe: nat) -> nat {
        if self.needs_repair(ds, q, k, nprobe) {
            frauds_in(self.neighbors(ds, q, k, self.probes(ds, IVF_NPROBE_REPAIR as nat)))
        } else {
            frauds_in(self.neighbors(ds, q, k, nprobe))
        }
    }

    /// What one phase of a search asks of its arguments. There is room for five
    /// neighbors: more may be asked for only where no more are found.
    pub open spec fn can_probe(&self, ds: &Dataset, q: Seq<i16>, k: nat, nprobe: nat) -> bool {
        &&& self.wf()
        &&& ds.wf()
        &&& k > 0 || nprobe == 0 || ds.num_cells == 0
        &&& k <= MAX_NEIGHBORS || self.neighbors(ds, q, k, nprobe).len() <= MAX_NEIGHBORS
    }

    /// What a search asks of its arguments: what each of its phases does.
    pub open spec fn can_search(&self, ds: &Dataset, q: Seq<i16>, k: nat, nprobe: nat) -> bool {
        &&& self.can_probe(ds, q, k, nprobe)
        &&& self.needs_repair(ds, q, k, nprobe) ==> self.can_probe(
            ds,
            q,
            k,
            self.probes(ds, IVF_NPROBE_REPAIR as nat),
        )
    }

    /// An index without cells.
    pub fn new() -> (r: Self)
        ensures
            r.num_cells == 0,
            r.part_by_key@.len() == IVF_NPARTITIONS,
            r.part_count@.len() == IVF_NPARTITIONS,
            forall|key: int, i: int|
                0 <= key < IVF_NPARTITIONS && 0 <= i < PARTITION_CELLS
                    ==> #[trigger] r.part_by_key@[key]@[i] == u32::MAX,
            forall|key: int| 0 <= key < IVF_NPARTITIONS ==> #[trigger] r.part_count@[key] == 0,
            r.wf(),
    {
        IVFIndex {
            num_cells: 0,
            part_by_key: vec![[u32::MAX; PARTITION_CELLS]; IVF_NPARTITIONS],
            part_count: vec![0; IVF_NPARTITIONS],
        }
    }

    /// Whether partition `key` lists the first eight of the first `n` cells of
    /// `ds` that have that key, and nothing else.
    pub open spec fn partition_done(&self, ds: &Dataset, key: int, n: nat) -> bool {
        let cells = cells_with_key(ds, key, n);
        &&& self.part_count@[key] == if cells.len() <= PARTITION_CELLS {
            cells.len() as int
        } else {
            PARTITION_CELLS as int
        }
        &&& forall|i: int|
            0 <= i < self.part_count@[key] ==> #[trigger] self.part_by_key@[key]@[i] == cells[i]
        &&& forall|i: int|
            self.part_count@[key] <= i < PARTITION_CELLS ==> #[trigger] self.part_by_key@[key]@[i]
                == u32::MAX
    }

    /// Builds the partitions of a dataset.
    pub fn build_from_dataset(ds: &Dataset, _num_cells: usize) -> (r: Self)
        requires
            ds.num_cells <= ds.centroids@.len(),
            ds.num_cells <= u32::MAX,
        ensures
            r.num_cells == ds.num_cells,
            r.part_by_key@.len() == IVF_NPARTITIONS,
            r.part_count@.len() == IVF_NPARTITIONS,
            forall|key: int|
                0 <= key < IVF_NPARTITIONS ==> #[trigger] r.partition_done(
                    ds,
                    key,
                    ds.num_cells as nat,
                ),
            r.wf(),
    {
        let mut ivf = IVFIndex::new();
        ivf.num_cells = ds.num_cells;
        ivf.assign_partitions(ds);
        proof {
            assert forall|key: int| 0 <= key < IVF_NPARTITIONS implies #[trigger] ivf.part_count@[key]
                <= PARTITION_CELLS by {
                assert(ivf.partition_done(ds, key, ds.num_cells as nat));
            }
        }
        ivf
    }

    /// Build partition -> cells mapping from dataset centroids. Each cell goes
    /// to the partition of its centroid, as long as that has room.
    fn assign_partitions(&mut self, ds: &Dataset)
        requires
            ds.num_cells <= ds.centroids@.len(),
            ds.num_cells <= u32::MAX,
            old(self).part_by_key@.len() == IVF_NPARTITIONS,
            old(self).part_count@.len() == IVF_NPARTITIONS,
            forall|key: int|
                0 <= key < IVF_NPARTITIONS ==> #[trigger] old(self).partition_done(ds, key, 0),
        ensures
            final(self).num_cells == old(self).num_cells,
            final(self).part_by_key@.len() == IVF_NPARTITIONS,
            final(self).part_count@.len() == IVF_NPARTITIONS,
            forall|key: int|
                0 <= key < IVF_NPARTITIONS ==> #[trigger] final(self).partition_done(
                    ds,
                    key,
                    ds.num_cells as nat,
                ),
    {
        let mut c: usize = 0;
        while c < ds.num_cells
            invariant
                c <= ds.num_cells <= ds.centroids@.len(),
                ds.num_cells <= u32::MAX,
                self.num_cells == old(self).num_cells,
                self.part_by_key@.len() == IVF_NPARTITIONS,
                self.part_count@.len() == IVF_NPARTITIONS,
                forall|key: int|
                    0 <= key < IVF_NPARTITIONS ==> #[trigger] self.partition_done(
                        ds,
                        key,
                        c as nat,
                    ),
            decreases ds.num_cells - c,
        {
            let key: usize = partition_key(&ds.centroids[c]) as usize;
            let ghost before = *self;
            assert(before.partition_done(ds, key as int, c as nat));
            let count: usize = self.part_count[key] as usize;
            if count < PARTITION_CELLS {
                self.part_by_key[key][count] = c as u32;
                self.part_count[key] = self.part_count[key] + 1;
            }
            c = c + 1;
            proof {
                assert forall|other: int| 0 <= other
                    < IVF_NPARTITIONS implies #[trigger] self.partition_done(
                    ds,
                    other,
                    c as nat,
                ) by {
                    assert(before.partition_done(ds, other, (c - 1) as nat));
                    let cells = cells_with_key(ds, other, (c - 1) as nat);
                    if other == key {
                        assert(cells_with_key(ds, other, c as nat) == cells.push((c - 1) as u32));
                    } else {
                        assert(cells_with_key(ds, other, c as nat) == cells);
                    }
                }
            }
        }
    }

    /// Count frauds in a single cell, up to five. Returns (fraud_count,
    /// total_count).
    pub fn count_frauds_in_cell(&self, ds: &Dataset, cell_idx: usize) -> (r: (u8, usize))
        requires
            cell_idx < ds.cell_meta@.len(),
            cell_is_labelled(ds, cell_idx as int),
        ensures
            r.0 == if cell_frauds(ds, cell_idx as int, r.1 as nat) <= 5 {
                cell_frauds(ds, cell_idx as int, r.1 as nat)
            } else {
                5
            },
            r.1 == ds.cell_len(cell_idx as int),
    {
        let off: u32 = ds.cell_meta[cell_idx].0;
        let len: u32 = ds.cell_meta[cell_idx].1;
        let mut fraud_count: u8 = 0;
        let mut i: u32 = 0;
        let ghost c = cell_idx as int;
        while i < len && fraud_count < 5
            invariant
                cell_idx < ds.cell_meta@.len(),
                c == cell_idx,
                off == ds.cell_meta@[c].0,
                len == ds.cell_len(c),
                cell_is_labelled(ds, c),
                i <= len,
                fraud_count <= 5,
                fraud_count == cell_frauds(ds, c, i as nat),
            decreases len - i,
        {
            assert(ds.cell_indices@[off + i] < ds.labels@.len());
            let vec_idx: usize = ds.cell_indices[(off + i) as usize] as usize;
            if ds.labels[vec_idx] != 0 {
                fraud_count = fraud_count + 1;
            }
            i = i + 1;
        }
        proof {
            lemma_cell_frauds_grow(ds, c, i as nat, len as nat);
        }
        (fraud_count, len as usize)
    }

    /// k-NN search with repair.
    ///
    /// 1. Scan the nearest `nprobe` cells and count the frauds among the `k`
    ///    nearest vectors found.
    /// 2. A unanimous count is final.
    /// 3. Where the neighbors disagree in a risky pattern, and the next centroid
    ///    is hardly farther than the last one probed, scan again with more
    ///    cells.
    /// 4. Otherwise accept the first count.
    pub fn search(&self, ds: &Dataset, query: &[i16; DIMS], k: usize, nprobe: usize) -> (r: usize)
        requires
            self.can_search(ds, query@, k as nat, nprobe as nat),
        ensures
            r == self.vote(ds, query@, k as nat, nprobe as nat),
            r <= k,
    {
        let (fraud_count, bits, centroid_probe, centroid_next) = self.search_phase_ex(
            ds,
            query,
            k,
            nprobe,
        );
        if fraud_count == 0 || fraud_count >= k {
            return fraud_count;
        }
        let nprobe_expanded: usize = if ds.num_cells < IVF_NPROBE_REPAIR {
            ds.num_cells
        } else {
            IVF_NPROBE_REPAIR
        };
        if nprobe_expanded <= nprobe {
            return fraud_count;
        }
        if is_risky_pattern(nprobe, bits, centroid_probe, centroid_next) {
            self.search_phase(ds, query, k, nprobe_expanded)
        } else {
            fraud_count
        }
    }

    /// Single-phase IVF search. Returns the fraud count among the top-k nearest
    /// neighbours.
    fn search_phase(&self, ds: &Dataset, query: &[i16; DIMS], k: usize, nprobe: usize) -> (r: usize)
        requires
            self.can_probe(ds, query@, k as nat, nprobe as nat),
        ensures
            r == frauds_in(self.neighbors(ds, query@, k as nat, nprobe as nat)),
            r <= k,
    {
        let (fraud_count, _bits, _probe, _next) = self.search_phase_ex(ds, query, k, nprobe);
        fraud_count
    }

    /// Tests whether partition `key` lists cell `c`.
    fn is_listed(&self, key: usize, c: usize) -> (r: bool)
        requires
            self.wf(),
            key < IVF_NPARTITIONS,
        ensures
            r == self.lists(key as int, c as int),
    {
        let count: usize = self.part_count[key] as usize;
        let mut i: usize = 0;
        while i < count
            invariant
                self.wf(),
                key < IVF_NPARTITIONS,
                count == self.part_count@[key as int],
                count <= PARTITION_CELLS,
                i <= count,
                forall|j: int| 0 <= j < i ==> #[trigger] self.part_by_key@[key as int]@[j] != c,
            decreases count - i,
        {
            if self.part_by_key[key][i] as usize == c {
                return true;
            }
            i = i + 1;
        }
        false
    }

    /// Ranks the cells by boosted distance and keeps the nearest.
    fn rank_cells(&self, ds: &Dataset, query: &[i16; DIMS]) -> (r: Vec<(i64, usize)>)
        requires
            self.wf(),
            ds.wf(),
        ensures
            r@ == self.cell_order(ds, query@),
    {
        let key: usize = partition_key(query) as usize;
        let ghost dists = Seq::new(
            ds.num_cells as nat,
            |c: int| self.boosted(ds, query@, c) as i64,
        );
        let mut cells: Vec<(i64, usize)> = Vec::new();
        let mut c: usize = 0;
        assert(dists.take(0) =~= Seq::<i64>::empty());
        while c < ds.num_cells
            invariant
                self.wf(),
                ds.wf(),
                key == key_of(query@),
                key < IVF_NPARTITIONS,
                c <= ds.num_cells,
                dists == Seq::new(
                    ds.num_cells as nat,
                    |c: int| self.boosted(ds, query@, c) as i64,
                ),
                cells@ == nearest(dists.take(c as int), IVF_NPROBE_REPAIR as nat),
                cells@.len() <= IVF_NPROBE_REPAIR,
            decreases ds.num_cells - c,
        {
            let rdist: i64 = distance_i16(query, &ds.centroids[c]);
            let dist: i64 = if self.is_listed(key, c) {
                rdist - 1
            } else {
                rdist
            };
            offer(&mut cells, IVF_NPROBE_REPAIR, dist, c);
            proof {
                assert(dists.take(c + 1).drop_last() =~= dists.take(c as int));
                assert(dists.take(c + 1).last() == dist);
            }
            c = c + 1;
        }
        assert(dists.take(ds.num_cells as int) =~= dists);
        cells
    }

    /// Extended single-phase search that also returns the centroid probe
    /// distance and the next centroid distance (for the repair pattern check).
    /// Returns `(fraud_count, bits, centroid_probe_dist, centroid_next_dist)`.
    pub fn search_phase_ex(
        &self,
        ds: &Dataset,
        query: &[i16; DIMS],
        k: usize,
        nprobe: usize,
    ) -> (r: (usize, u8, i64, i64))
        requires
            self.can_probe(ds, query@, k as nat, nprobe as nat),
        ensures
            r.0 == frauds_in(self.neighbors(ds, query@, k as nat, nprobe as nat)),
            r.1 == pattern_of(self.neighbors(ds, query@, k as nat, nprobe as nat)),
            r.2 == self.probe_distance(ds, query@, nprobe as nat),
            r.3 == self.next_distance(ds, query@, nprobe as nat),
            r.0 <= k,
            -1 <= r.2,
            -1 <= r.3,
    {
        let cells: Vec<(i64, usize)> = self.rank_cells(ds, query);
        proof {
            self.lemma_cell_order(ds, query@);
        }
        let effective: usize = if nprobe < cells.len() {
            nprobe
        } else {
            cells.len()
        };
        let ghost order = cells@.take(effective as int);
        let mut best: Vec<(i64, usize)> = Vec::new();
        let mut i: usize = 0;
        while i < effective
            invariant_except_break
                self.can_probe(ds, query@, k as nat, nprobe as nat),
                k > 0 || effective == 0,
                i <= effective <= cells@.len(),
                order == cells@.take(effective as int),
                cells@ == self.cell_order(ds, query@),
                forall|j: int| 0 <= j < cells@.len() ==> (#[trigger] cells@[j]).1 < ds.num_cells,
                best@.len() <= k,
                ascending(best@),
                self.neighbors(ds, query@, k as nat, nprobe as nat) == scanned(
                    ds,
                    query@,
                    k as nat,
                    order,
                    i as int,
                    best@,
                ),
            ensures
                best@.len() <= k,
                best@ == self.neighbors(ds, query@, k as nat, nprobe as nat),
            decreases effective - i,
        {
            let c: usize = cells[i].1;
            assert(order[i as int] == cells@[i as int]);
            assert(ds.cell_wf(c as int));
            if best.len() == k {
                let last: i64 = best[k - 1].0;
                let cdist: i64 = distance_i16(query, &ds.centroids[c]);
                if last <= IVF_EARLY_DISTANCE_LIMIT && cdist > IVF_EARLY_DISTANCE_LIMIT * 4 {
                    proof {
                        law_early_stop_changes_nothing(
                            self,
                            ds,
                            query@,
                            k as nat,
                            effective as int,
                            i as int,
                            best@,
                        );
                    }
                    break;
                }
                if cdist >= last {
                    i = i + 1;
                    continue;
                }
                if ds.lower_bound(query, c) >= last {
                    i = i + 1;
                    continue;
                }
            }
            scan_cell(ds, query, k, c, &mut best);
            i = i + 1;
        }
        let (fraud_count, bits) = tally(&best);
        let centroid_probe: i64 = if effective >= 1 {
            cells[effective - 1].0
        } else {
            i64::MAX
        };
        let centroid_next: i64 = if effective < cells.len() {
            cells[effective].0
        } else {
            i64::MAX
        };
        (fraud_count, bits, centroid_probe, centroid_next)
    }

    /// The ranked cells are cells of the dataset, as many as can be probed, at
    /// distances from -1 up.
    proof fn lemma_cell_order(&self, ds: &Dataset, q: Seq<i16>)
        ensures
            self.cell_order(ds, q).len() == self.probes(ds, IVF_NPROBE_REPAIR as nat),
            forall|j: int|
                0 <= j < self.cell_order(ds, q).len() ==> (#[trigger] self.cell_order(ds, q)[j]).1
                    < ds.num_cells && -1 <= self.cell_order(ds, q)[j].0 <= MAX_DISTANCE,
    {
        let dists = Seq::new(ds.num_cells as nat, |c: int| self.boosted(ds, q, c) as i64);
        lemma_nearest(dists, IVF_NPROBE_REPAIR as nat);
        assert forall|j: int| 0 <= j < self.cell_order(ds, q).len() implies (
        #[trigger] self.cell_order(ds, q)[j]).1 < ds.num_cells && -1 <= self.cell_order(ds, q)[j].0
            <= MAX_DISTANCE by {
            let c = self.cell_order(ds, q)[j].1 as int;
            lemma_sq_dist_bounds(q, ds.centroids@[c]@, DIMS as nat);
        }
    }
}

proof fn lemma_cell_frauds_grow(ds: &Dataset, c: int, m: nat, n: nat)
    requires
        m <= n,
    ensures
        cell_frauds(ds, c, m) <= cell_frauds(ds, c, n),
    decreases n - m,
{
    if m < n {
        lemma_cell_frauds_grow(ds, c, m, (n - 1) as nat);
    }
}

/// Offers the vectors of one cell to a list of neighbors.
fn scan_cell(
    ds: &Dataset,
    query: &[i16; DIMS],
    k: usize,
    c: usize,
    best: &mut Vec<(i64, usize)>,
)
    requires
        ds.wf(),
        c < ds.num_cells,
        old(best)@.len() <= k,
        ascending(old(best)@),
    ensures
        final(best)@ == with_cell(
            ds,
            query@,
            k as nat,
            c as int,
            ds.cell_len(c as int) as nat,
            old(best)@,
        ),
        final(best)@.len() <= k,
        ascending(final(best)@),
{
    assert(ds.cell_wf(c as int));
    let offset: u32 = ds.cell_meta[c].0;
    let len: u32 = ds.cell_meta[c].1;
    let mut i: u32 = 0;
    while i < len
        invariant
            ds.wf(),
            c < ds.num_cells,
            ds.cell_wf(c as int),
            offset == ds.cell_meta@[c as int].0,
            len == ds.cell_len(c as int),
            i <= len,
            best@ == with_cell(ds, query@, k as nat, c as int, i as nat, old(best)@),
            best@.len() <= k,
            ascending(best@),
        decreases len - i,
    {
        assert(ds.cell_indices@[offset + i] < ds.count);
        let vidx: usize = ds.cell_indices[(offset + i) as usize] as usize;
        let dist: i64 = ds.distance(query, vidx);
        let label: usize = ds.labels[vidx] as usize;
        proof {
            lemma_offered_ascending(best@, k as nat, dist, label);
        }
        offer(best, k, dist, label);
        i = i + 1;
    }
}

/// Counts the frauds in a list of neighbors, and notes where they stand.
fn tally(best: &Vec<(i64, usize)>) -> (r: (usize, u8))
    requires
        best@.len() <= MAX_NEIGHBORS,
    ensures
        r.0 == frauds_in(best@),
        r.1 == pattern_of(best@),
        r.0 <= best@.len(),
{
    let mut fraud_count: usize = 0;
    let mut bits: u8 = 0;
    let mut weight: u8 = 1;
    let mut i: usize = 0;
    assert(best@.take(0) =~= Seq::<(i64, usize)>::empty());
    while i < best.len()
        invariant
            i <= best@.len() <= MAX_NEIGHBORS,
            fraud_count <= i,
            fraud_count == frauds_in(best@.take(i as int)),
            bits == pattern_of(best@.take(i as int)),
            weight == bit(i as nat),
            bits < weight,
            i == 0 ==> weight == 1,
            i == 1 ==> weight == 2,
            i == 2 ==> weight == 4,
            i == 3 ==> weight == 8,
            i == 4 ==> weight == 16,
            i == 5 ==> weight == 32,
        decreases best@.len() - i,
    {
        assert(best@.take(i + 1).drop_last() =~= best@.take(i as int));
        if best[i].1 != 0 {
            fraud_count = fraud_count + 1;
            bits = bits + weight;
        }
        weight = weight * 2;
        i = i + 1;
    }
    assert(best@.take(best@.len() as int) =~= best@);
    (fraud_count, bits)
}

/// Risky pattern detection.
///
/// When the top-5 neighbours form specific fraud arrangements and the centroid
/// probe gap is small, the binary decision is sensitive to which neighbours are
/// picked. Threshold values are tuned per `nprobe`.
pub fn is_risky_pattern(nprobe: usize, bits: u8, centroid_probe: i64, centroid_next: i64) -> (r: bool)
    requires
        centroid_next == i64::MAX || i64::MIN <= centroid_next - centroid_probe <= i64::MAX,
    ensures
        r == risky(nprobe as int, bits as int, centroid_probe as int, centroid_next as int),
{
    if centroid_next == i64::MAX {
        return false;
    }
    let centroid_gap: i64 = centroid_next - centroid_probe;
    if nprobe == 12 {
        return match bits {
            0b00110 => centroid_gap <= 1_600_000,
            0b01010 => centroid_gap <= 3_800_000,
            0b01100 => centroid_gap <= 1_000_000,
            0b10010 => centroid_gap <= 1_800_000,
            0b10011 => centroid_gap <= 500_000,
            0b11100 => centroid_gap <= 150_000,
            _ => false,
        };
    }
    match bits {
        0b00110 => centroid_gap <= 500_000,
        0b01010 => centroid_gap <= 500_000,
        0b01100 => centroid_gap <= 600_000,
        0b10010 => centroid_gap <= 1_200_000,
        0b10011 => centroid_gap <= 500_000,
        0b10110 => centroid_gap <= 700_000,
        0b11100 => centroid_gap <= 150_000,
        _ => false,
    }
}

/// Ending the scan early changes no list of neighbors: where the list is full
/// of near neighbors and a centroid is far off, that cell and all that follow in
/// the order are passed over.
pub proof fn law_early_stop_changes_nothing(
    ivf: &IVFIndex,
    ds: &Dataset,
    q: Seq<i16>,
    k: nat,
    n: int,
    i: int,
    best: Seq<(i64, usize)>,
)
    requires
        k > 0,
        0 <= i < n <= ivf.cell_order(ds, q).len(),
        good_enough(ds, q, k, ivf.cell_order(ds, q)[i].1 as int, best),
    ensures
        scanned(ds, q, k, ivf.cell_order(ds, q).take(n), i, best) == best,
{
    let order = ivf.cell_order(ds, q).take(n);
    let ranked = Seq::new(ds.num_cells as nat, |c: int| ivf.boosted(ds, q, c) as i64);
    assert(ranked.len() <= usize::MAX);
    lemma_nearest(ranked, IVF_NPROBE_REPAIR as nat);
    assert forall|j: int| i <= j < n implies sq_dist(
        q,
        ds.centroids@[(#[trigger] order[j]).1 as int]@,
    ) >= best[k - 1].0 by {
        let a = order[i].1 as int;
        let b = order[j].1 as int;
        lemma_sq_dist_bounds(q, ds.centroids@[a]@, DIMS as nat);
        lemma_sq_dist_bounds(q, ds.centroids@[b]@, DIMS as nat);
        assert(order[i] == ivf.cell_order(ds, q)[i] && order[j] == ivf.cell_order(ds, q)[j]);
        assert(order[i].0 == ranked[a] && order[j].0 == ranked[b]);
        assert(order[i].0 <= order[j].0);
    }
    lemma_all_passed_over(ds, q, k, order, i, best);
}

/// A scan of cells that are all passed over finds nothing new.
proof fn lemma_all_passed_over(
    ds: &Dataset,
    q: Seq<i16>,
    k: nat,
    order: Seq<(i64, usize)>,
    i: int,
    best: Seq<(i64, usize)>,
)
    requires
        0 <= i <= order.len(),
        best.len() == k,
        forall|j: int|
            i <= j < order.len() ==> sq_dist(q, ds.centroids@[(#[trigger] order[j]).1 as int]@)
                >= best[k - 1].0,
    ensures
        scanned(ds, q, k, order, i, best) == best,
    decreases order.len() - i,
{
    if i < order.len() {
        assert(passes_over(ds, q, k, order[i].1 as int, best));
        lemma_all_passed_over(ds, q, k, order, i + 1, best);
    }
}

} // verus!
