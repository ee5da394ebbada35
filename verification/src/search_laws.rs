//! What holds of a search as a whole.

use crate::dataset::{frauds_among, law_knn_is_unique, law_lower_bound, Dataset};
use crate::distance::{lemma_sq_dist_bounds, sq_dist, DIMS};
use crate::ivf::{bit, cells_with_key, frauds_in, key_of, pattern_of, risky, scanned, with_cell,
    IVFIndex, IVF_NPROBE_REPAIR, PARTITION_CELLS};
use crate::ranking::{ascending, lemma_nearest, lemma_offered_ascending, lemma_offered_too_far,
    lemma_place, nearest, offered, place};
use vstd::arithmetic::div_mod::{lemma_basic_div, lemma_fundamental_div_mod_converse,
    lemma_hoist_over_denominator};
use vstd::prelude::*;

verus! {

/// Whether the bounding box of cell `c` encloses the cell's vectors.
pub open spec fn box_encloses(ds: &Dataset, c: int) -> bool {
    forall|i: int, d: int|
        #![trigger ds.vector(ds.cell_vector(c, i))[d]]
        0 <= i < ds.cell_len(c) && 0 <= d < DIMS ==> ds.bbox_min@[c]@[d] <= ds.vector(
            ds.cell_vector(c, i),
        )[d] && ds.vector(ds.cell_vector(c, i))[d] <= ds.bbox_max@[c]@[d]
}

proof fn lemma_far_cell(
    ds: &Dataset,
    q: Seq<i16>,
    k: nat,
    c: int,
    n: nat,
    best: Seq<(i64, usize)>,
)
    requires
        ds.bbox_min@.len() > 0,
        n <= ds.cell_len(c),
        box_encloses(ds, c),
        ascending(best),
        best.len() == k,
        k > 0,
        ds.bound_of(q, c) >= best[k - 1].0,
    ensures
        with_cell(ds, q, k, c, n, best) == best,
    decreases n,
{
    if n > 0 {
        lemma_far_cell(ds, q, k, c, (n - 1) as nat, best);
        let v = ds.cell_vector(c, n - 1);
        assert forall|d: int| 0 <= d < DIMS implies #[trigger] ds.bbox_min@[c]@[d] <= ds.vector(v)[d]
            && ds.vector(v)[d] <= ds.bbox_max@[c]@[d] by {
            assert(ds.vector(ds.cell_vector(c, n - 1))[d] == ds.vector(v)[d]);
        }
        law_lower_bound(ds, q, c, n - 1);
        lemma_sq_dist_bounds(q, ds.vector(v), DIMS as nat);
        lemma_offered_too_far(
            best,
            k,
            sq_dist(q, ds.vector(v)) as i64,
            ds.labels@[v] as usize,
        );
    }
}

/// Passing over a cell because of its lower bound loses nothing: where the
/// cell's box encloses its vectors, scanning the cell would leave the list of
/// neighbors as it is.
pub proof fn law_bound_pruning_is_lossless(
    ds: &Dataset,
    q: Seq<i16>,
    k: nat,
    c: int,
    best: Seq<(i64, usize)>,
)
    requires
        ds.bbox_min@.len() > 0,
        box_encloses(ds, c),
        ascending(best),
        best.len() == k,
        k > 0,
        ds.bound_of(q, c) >= best[k - 1].0,
    ensures
        with_cell(ds, q, k, c, ds.cell_len(c) as nat, best) == best,
{
    lemma_far_cell(ds, q, k, c, ds.cell_len(c) as nat, best);
}

pub proof fn lemma_with_cell(
    ds: &Dataset,
    q: Seq<i16>,
    k: nat,
    c: int,
    n: nat,
    best: Seq<(i64, usize)>,
)
    requires
        ascending(best),
        best.len() <= k,
    ensures
        ascending(with_cell(ds, q, k, c, n, best)),
        best.len() <= with_cell(ds, q, k, c, n, best).len() <= k,
        with_cell(ds, q, k, c, n, best).len() == if best.len() + n <= k {
            best.len() + n
        } else {
            k
        },
    decreases n,
{
    if n > 0 {
        let shorter = with_cell(ds, q, k, c, (n - 1) as nat, best);
        let v = ds.cell_vector(c, n - 1);
        lemma_with_cell(ds, q, k, c, (n - 1) as nat, best);
        lemma_offered_ascending(
            shorter,
            k,
            sq_dist(q, ds.vector(v)) as i64,
            ds.labels@[v] as usize,
        );
    }
}

proof fn lemma_scanned(
    ds: &Dataset,
    q: Seq<i16>,
    k: nat,
    order: Seq<(i64, usize)>,
    i: int,
    best: Seq<(i64, usize)>,
)
    requires
        ascending(best),
        best.len() <= k,
    ensures
        ascending(scanned(ds, q, k, order, i, best)),
        scanned(ds, q, k, order, i, best).len() <= k,
    decreases order.len() - i,
{
    if 0 <= i < order.len() {
        let c = order[i].1 as int;
        let more = with_cell(ds, q, k, c, ds.cell_len(c) as nat, best);
        lemma_with_cell(ds, q, k, c, ds.cell_len(c) as nat, best);
        lemma_scanned(ds, q, k, order, i + 1, best);
        lemma_scanned(ds, q, k, order, i + 1, more);
    }
}

/// A phase finds at most `k` neighbors, nearest first.
pub proof fn law_neighbors_ascend(ivf: &IVFIndex, ds: &Dataset, q: Seq<i16>, k: nat, nprobe: nat)
    ensures
        ascending(ivf.neighbors(ds, q, k, nprobe)),
        ivf.neighbors(ds, q, k, nprobe).len() <= k,
{
    lemma_scanned(
        ds,
        q,
        k,
        ivf.cell_order(ds, q).take(ivf.probes(ds, nprobe) as int),
        0,
        Seq::empty(),
    );
}

/// Whether a candidate has its place in a list: it is listed, or the list is
/// full of candidates that are no farther.
pub open spec fn considered(best: Seq<(i64, usize)>, k: nat, candidate: (i64, usize)) -> bool {
    best.contains(candidate) || (best.len() == k && best[k - 1].0 <= candidate.0)
}

proof fn lemma_offer_considers(
    best: Seq<(i64, usize)>,
    k: nat,
    dist: i64,
    tag: usize,
    candidate: (i64, usize),
)
    requires
        k > 0,
        ascending(best),
        best.len() <= k,
        candidate == (dist, tag) || considered(best, k, candidate),
    ensures
        considered(offered(best, k, dist, tag), k, candidate),
{
    let p = place(best, dist, 0);
    let longer = best.insert(p, (dist, tag));
    let more = offered(best, k, dist, tag);
    lemma_place(best, dist, 0);
    lemma_offered_ascending(best, k, dist, tag);
    if candidate == (dist, tag) {
        assert(longer[p] == candidate);
        if p < more.len() {
            assert(more[p] == candidate);
        } else {
            assert(more[k - 1] == best[k - 1]);
        }
    } else if best.contains(candidate) {
        let m = choose|m: int| 0 <= m < best.len() && best[m] == candidate;
        let at = if m < p {
            m
        } else {
            m + 1
        };
        assert(longer[at] == candidate);
        if at < more.len() {
            assert(more[at] == candidate);
        } else {
            assert(more[k - 1] == longer[k - 1]);
            if p < k - 1 {
                assert(longer[k - 1] == best[k - 2]);
            }
        }
    } else {
        assert(more[k - 1] == longer[k - 1]);
        if p < k - 1 {
            assert(longer[k - 1] == best[k - 2]);
        }
    }
}

/// What a list has considered stays so when a cell is scanned.
pub proof fn lemma_cell_considers(
    ds: &Dataset,
    q: Seq<i16>,
    k: nat,
    c: int,
    n: nat,
    best: Seq<(i64, usize)>,
    candidate: (i64, usize),
)
    requires
        k > 0,
        ascending(best),
        best.len() <= k,
        considered(best, k, candidate) || exists|i: int|
            0 <= i < n && candidate == #[trigger] ds.candidate(q, c, i),
    ensures
        considered(with_cell(ds, q, k, c, n, best), k, candidate),
    decreases n,
{
    if n > 0 {
        let m = (n - 1) as nat;
        let shorter = with_cell(ds, q, k, c, m, best);
        lemma_with_cell(ds, q, k, c, m, best);
        let (dist, tag) = ds.candidate(q, c, n - 1);
        if candidate != (dist, tag) {
            if !considered(best, k, candidate) {
                let i = choose|i: int|
                    0 <= i < n && candidate == #[trigger] ds.candidate(q, c, i);
                assert(i < m);
            }
            lemma_cell_considers(ds, q, k, c, m, best, candidate);
        }
        lemma_offer_considers(shorter, k, dist, tag, candidate);
    }
}

pub proof fn lemma_scan_considers(
    ds: &Dataset,
    q: Seq<i16>,
    k: nat,
    order: Seq<(i64, usize)>,
    i: int,
    best: Seq<(i64, usize)>,
    candidate: (i64, usize),
)
    requires
        k > 0,
        ascending(best),
        best.len() <= k,
        considered(best, k, candidate),
    ensures
        considered(scanned(ds, q, k, order, i, best), k, candidate),
    decreases order.len() - i,
{
    if 0 <= i < order.len() {
        let c = order[i].1 as int;
        let n = ds.cell_len(c) as nat;
        lemma_with_cell(ds, q, k, c, n, best);
        lemma_cell_considers(ds, q, k, c, n, best, candidate);
        lemma_scan_considers(ds, q, k, order, i + 1, best, candidate);
        lemma_scan_considers(
            ds,
            q,
            k,
            order,
            i + 1,
            with_cell(ds, q, k, c, n, best),
            candidate,
        );
    }
}

/// Every vector of the nearest cell is considered: it is among the neighbors,
/// or there are `k` that are no farther.
pub proof fn law_nearest_cell_is_considered(
    ivf: &IVFIndex,
    ds: &Dataset,
    q: Seq<i16>,
    k: nat,
    nprobe: nat,
    i: int,
)
    requires
        k > 0,
        nprobe > 0,
        ds.num_cells > 0,
        0 <= i < ds.cell_len(ivf.cell_order(ds, q)[0].1 as int),
    ensures
        considered(
            ivf.neighbors(ds, q, k, nprobe),
            k,
            ds.candidate(q, ivf.cell_order(ds, q)[0].1 as int, i),
        ),
{
    let ranked = Seq::new(ds.num_cells as nat, |c: int| ivf.boosted(ds, q, c) as i64);
    assert(ranked.len() <= usize::MAX);
    lemma_nearest(ranked, IVF_NPROBE_REPAIR as nat);
    let order = ivf.cell_order(ds, q).take(ivf.probes(ds, nprobe) as int);
    let c = order[0].1 as int;
    let n = ds.cell_len(c) as nat;
    let none = Seq::<(i64, usize)>::empty();
    let candidate = ds.candidate(q, c, i);
    lemma_with_cell(ds, q, k, c, n, none);
    lemma_cell_considers(ds, q, k, c, n, none, candidate);
    lemma_scan_considers(ds, q, k, order, 1, with_cell(ds, q, k, c, n, none), candidate);
}

/// Whether every candidate of a list is a vector of one of the first `n` cells
/// of an order.
pub open spec fn drawn_from(
    ds: &Dataset,
    q: Seq<i16>,
    order: Seq<(i64, usize)>,
    n: int,
    best: Seq<(i64, usize)>,
) -> bool {
    forall|j: int| 0 <= j < best.len() ==> drawn(ds, q, order, n, #[trigger] best[j])
}

/// Whether a candidate is a vector of one of the first `n` cells of an order.
pub open spec fn drawn(
    ds: &Dataset,
    q: Seq<i16>,
    order: Seq<(i64, usize)>,
    n: int,
    candidate: (i64, usize),
) -> bool {
    exists|m: int, i: int|
        0 <= m < n && 0 <= i < ds.cell_len(order[m].1 as int) && candidate
            == #[trigger] ds.candidate(q, order[m].1 as int, i)
}

proof fn lemma_cell_drawn(
    ds: &Dataset,
    q: Seq<i16>,
    k: nat,
    order: Seq<(i64, usize)>,
    m: int,
    n: nat,
    best: Seq<(i64, usize)>,
)
    requires
        0 <= m < order.len(),
        n <= ds.cell_len(order[m].1 as int),
        drawn_from(ds, q, order, m + 1, best),
    ensures
        drawn_from(
            ds,
            q,
            order,
            m + 1,
            with_cell(ds, q, k, order[m].1 as int, n, best),
        ),
    decreases n,
{
    if n > 0 {
        let c = order[m].1 as int;
        let shorter = with_cell(ds, q, k, c, (n - 1) as nat, best);
        lemma_cell_drawn(ds, q, k, order, m, (n - 1) as nat, best);
        let (dist, tag) = ds.candidate(q, c, n - 1);
        let more = offered(shorter, k, dist, tag);
        let p = place(shorter, dist, 0);
        lemma_place(shorter, dist, 0);
        assert forall|j: int| 0 <= j < more.len() implies drawn(
            ds,
            q,
            order,
            m + 1,
            #[trigger] more[j],
        ) by {
            if j < p {
                assert(more[j] == shorter[j]);
            } else if j > p {
                assert(more[j] == shorter[j - 1]);
            } else {
                assert(more[j] == ds.candidate(q, order[m].1 as int, n - 1));
            }
        }
    }
}

proof fn lemma_scan_drawn(
    ds: &Dataset,
    q: Seq<i16>,
    k: nat,
    order: Seq<(i64, usize)>,
    m: int,
    best: Seq<(i64, usize)>,
)
    requires
        0 <= m <= order.len(),
        drawn_from(ds, q, order, m, best),
    ensures
        drawn_from(ds, q, order, order.len() as int, scanned(ds, q, k, order, m, best)),
    decreases order.len() - m,
{
    assert forall|j: int| 0 <= j < best.len() implies drawn(
        ds,
        q,
        order,
        order.len() as int,
        #[trigger] best[j],
    ) && (m < order.len() ==> drawn(ds, q, order, m + 1, best[j])) by {
        assert(drawn(ds, q, order, m, best[j]));
    }
    if m < order.len() {
        let c = order[m].1 as int;
        lemma_cell_drawn(ds, q, k, order, m, ds.cell_len(c) as nat, best);
        lemma_scan_drawn(ds, q, k, order, m + 1, best);
        lemma_scan_drawn(
            ds,
            q,
            k,
            order,
            m + 1,
            with_cell(ds, q, k, c, ds.cell_len(c) as nat, best),
        );
    }
}

/// Every neighbor that a phase finds is a vector of a cell that it probes, with
/// its distance and its label.
pub proof fn law_neighbors_are_vectors(
    ivf: &IVFIndex,
    ds: &Dataset,
    q: Seq<i16>,
    k: nat,
    nprobe: nat,
)
    ensures
        drawn_from(
            ds,
            q,
            ivf.cell_order(ds, q).take(ivf.probes(ds, nprobe) as int),
            ivf.probes(ds, nprobe) as int,
            ivf.neighbors(ds, q, k, nprobe),
        ),
{
    let ranked = Seq::new(ds.num_cells as nat, |c: int| ivf.boosted(ds, q, c) as i64);
    assert(ranked.len() <= usize::MAX);
    lemma_nearest(ranked, IVF_NPROBE_REPAIR as nat);
    let order = ivf.cell_order(ds, q).take(ivf.probes(ds, nprobe) as int);
    lemma_scan_drawn(ds, q, k, order, 0, Seq::empty());
}

/// A unanimous first phase is final: where none of the neighbors is a fraud,
/// or `k` of them are, the search returns that count.
pub proof fn law_unanimous_is_final(ivf: &IVFIndex, ds: &Dataset, q: Seq<i16>, k: nat, nprobe: nat)
    requires
        frauds_in(ivf.neighbors(ds, q, k, nprobe)) == 0 || frauds_in(
            ivf.neighbors(ds, q, k, nprobe),
        ) >= k,
    ensures
        ivf.vote(ds, q, k, nprobe) == frauds_in(ivf.neighbors(ds, q, k, nprobe)),
{
}

/// A search that already probes as many cells as a repair would is never
/// repeated.
pub proof fn law_full_probe_is_final(ivf: &IVFIndex, ds: &Dataset, q: Seq<i16>, k: nat, nprobe: nat)
    requires
        nprobe >= IVF_NPROBE_REPAIR || nprobe >= ds.num_cells,
    ensures
        ivf.vote(ds, q, k, nprobe) == frauds_in(ivf.neighbors(ds, q, k, nprobe)),
{
}

pub proof fn lemma_cells_with_key(ds: &Dataset, key: int, n: nat)
    requires
        n <= u32::MAX,
    ensures
        forall|i: int|
            0 <= i < cells_with_key(ds, key, n).len() ==> (#[trigger] cells_with_key(ds, key, n)[i])
                < n && key_of(ds.centroids@[cells_with_key(ds, key, n)[i] as int]@) == key,
        forall|c: int|
            0 <= c < n && key_of(#[trigger] ds.centroids@[c]@) == key ==> cells_with_key(
                ds,
                key,
                n,
            ).contains(c as u32),
    decreases n,
{
    if n > 0 {
        lemma_cells_with_key(ds, key, (n - 1) as nat);
        let shorter = cells_with_key(ds, key, (n - 1) as nat);
        let cells = cells_with_key(ds, key, n);
        assert forall|c: int| 0 <= c < n && key_of(#[trigger] ds.centroids@[c]@)
            == key implies cells.contains(c as u32) by {
            if c == n - 1 {
                assert(cells[cells.len() - 1] == c as u32);
            } else {
                assert(shorter.contains(c as u32));
                let i = choose|i: int| 0 <= i < shorter.len() && shorter[i] == c as u32;
                assert(cells[i] == c as u32);
            }
        }
    }
}

/// A partition lists only cells whose centroids have its key; and as long as
/// there are no more than eight of those, it lists them all.
pub proof fn law_partition_lists_its_cells(ivf: &IVFIndex, ds: &Dataset, key: int, n: nat, c: int)
    requires
        n <= u32::MAX,
        ivf.partition_done(ds, key, n),
    ensures
        ivf.lists(key, c) ==> 0 <= c < n && key_of(ds.centroids@[c]@) == key,
        cells_with_key(ds, key, n).len() <= PARTITION_CELLS && 0 <= c < n && key_of(
            ds.centroids@[c]@,
        ) == key ==> ivf.lists(key, c),
{
    let cells = cells_with_key(ds, key, n);
    lemma_cells_with_key(ds, key, n);
    if ivf.lists(key, c) {
        let i = choose|i: int|
            0 <= i < ivf.part_count@[key] && #[trigger] ivf.part_by_key@[key]@[i] == c;
        assert(cells[i] == c);
    }
    if cells.len() <= PARTITION_CELLS && 0 <= c < n && key_of(ds.centroids@[c]@) == key {
        assert(cells.contains(c as u32));
        let i = choose|i: int| 0 <= i < cells.len() && cells[i] == c as u32;
        assert(ivf.part_by_key@[key]@[i] == c);
    }
}

/// Whether the dataset has one cell, which holds all vectors in order.
pub open spec fn has_single_cell(ds: &Dataset) -> bool {
    &&& ds.num_cells == 1
    &&& ds.cell_len(0) == ds.count
    &&& forall|i: int| 0 <= i < ds.count ==> #[trigger] ds.cell_vector(0, i) == i
}

/// The list with the tags, which are numbers of vectors, replaced by labels.
pub open spec fn labelled(best: Seq<(i64, usize)>, labels: Seq<u8>) -> Seq<(i64, usize)> {
    best.map_values(|e: (i64, usize)| (e.0, labels[e.1 as int] as usize))
}

proof fn lemma_place_labelled(best: Seq<(i64, usize)>, labels: Seq<u8>, dist: i64, from: int)
    requires
        0 <= from <= best.len(),
    ensures
        place(labelled(best, labels), dist, from) == place(best, dist, from),
    decreases best.len() - from,
{
    if from < best.len() {
        assert(labelled(best, labels)[from].0 == best[from].0);
        if best[from].0 <= dist {
            lemma_place_labelled(best, labels, dist, from + 1);
        }
    }
}

proof fn lemma_offered_labelled(
    best: Seq<(i64, usize)>,
    labels: Seq<u8>,
    k: nat,
    dist: i64,
    tag: usize,
)
    ensures
        offered(labelled(best, labels), k, dist, labels[tag as int] as usize) == labelled(
            offered(best, k, dist, tag),
            labels,
        ),
{
    lemma_place_labelled(best, labels, dist, 0);
    lemma_place(best, dist, 0);
    assert(offered(labelled(best, labels), k, dist, labels[tag as int] as usize) =~= labelled(
        offered(best, k, dist, tag),
        labels,
    ));
}

proof fn lemma_single_cell(ds: &Dataset, q: Seq<i16>, k: nat, n: nat)
    requires
        has_single_cell(ds),
        n <= ds.count,
    ensures
        with_cell(ds, q, k, 0, n, Seq::empty()) == labelled(
            nearest(ds.distances(q).take(n as int), k),
            ds.labels@,
        ),
    decreases n,
{
    let dists = ds.distances(q);
    if n > 0 {
        let m = (n - 1) as nat;
        lemma_single_cell(ds, q, k, m);
        assert(dists.take(n as int).drop_last() =~= dists.take(m as int));
        assert(ds.cell_vector(0, n - 1) == n - 1);
        lemma_offered_labelled(
            nearest(dists.take(m as int), k),
            ds.labels@,
            k,
            dists[n - 1],
            (n - 1) as usize,
        );
    } else {
        assert(dists.take(0) =~= Seq::<i64>::empty());
        assert(labelled(Seq::<(i64, usize)>::empty(), ds.labels@) =~= Seq::<
            (i64, usize),
        >::empty());
    }
}

proof fn lemma_frauds_labelled(best: Seq<(i64, usize)>, labels: Seq<u8>, indices: Seq<usize>)
    requires
        indices.len() == best.len(),
        forall|j: int| 0 <= j < best.len() ==> #[trigger] indices[j] == best[j].1,
    ensures
        frauds_in(labelled(best, labels)) == frauds_among(labels, indices),
    decreases best.len(),
{
    if best.len() > 0 {
        lemma_frauds_labelled(best.drop_last(), labels, indices.drop_last());
        assert(labelled(best, labels).drop_last() =~= labelled(best.drop_last(), labels));
        assert(indices.last() == best.last().1);
    }
}

/// Whether bit `i` of a number is set.
pub open spec fn has_bit(x: nat, i: nat) -> bool {
    (x / bit(i)) % 2 == 1
}

proof fn lemma_bit(i: nat)
    ensures
        bit(i) > 0,
    decreases i,
{
    if i > 0 {
        lemma_bit((i - 1) as nat);
    }
}

proof fn lemma_bit_product(i: nat, j: nat)
    ensures
        bit(i + j) == bit(i) * bit(j),
    decreases j,
{
    if j > 0 {
        lemma_bit_product(i, (j - 1) as nat);
        let x = bit(i);
        let y = bit((j - 1) as nat);
        assert(2 * (x * y) == x * (2 * y)) by (nonlinear_arith);
    } else {
        assert(bit(i) * 1 == bit(i));
    }
}

proof fn lemma_pattern_below(best: Seq<(i64, usize)>)
    ensures
        pattern_of(best) < bit(best.len()),
    decreases best.len(),
{
    if best.len() > 0 {
        lemma_pattern_below(best.drop_last());
    }
}

/// Adding an even multiple leaves the parity of a quotient.
proof fn lemma_parity(x: int, b: int, m: int)
    requires
        b > 0,
    ensures
        ((x + b * (2 * m)) / b) % 2 == (x / b) % 2,
{
    lemma_hoist_over_denominator(x, 2 * m, b as nat);
    assert(b * (2 * m) == (2 * m) * b) by (nonlinear_arith);
    assert((x / b + 2 * m) % 2 == (x / b) % 2);
}

/// Bit `i` of the fraud pattern is set exactly where neighbor `i` is a fraud.
pub proof fn law_pattern_bits(best: Seq<(i64, usize)>, i: nat)
    ensures
        has_bit(pattern_of(best), i) <==> i < best.len() && best[i as int].1 != 0,
    decreases best.len(),
{
    let n = best.len();
    lemma_bit(i);
    if i >= n {
        lemma_pattern_below(best);
        lemma_bit_product(n, (i - n) as nat);
        lemma_bit(n);
        lemma_bit((i - n) as nat);
        assert(bit(n) <= bit(i)) by (nonlinear_arith)
            requires
                bit(i) == bit(n) * bit((i - n) as nat),
                bit((i - n) as nat) >= 1,
                bit(n) > 0,
        ;
        lemma_basic_div(pattern_of(best) as int, bit(i) as int);
    } else {
        let prev = best.drop_last();
        let m = (n - 1) as nat;
        lemma_pattern_below(prev);
        law_pattern_bits(prev, i);
        if i == m {
            let low = pattern_of(prev) as int;
            let b = bit(m) as int;
            lemma_basic_div(low, b);
            if best.last().1 != 0 {
                lemma_fundamental_div_mod_converse(low + b, b, 1, low);
            }
        } else {
            assert(prev[i as int] == best[i as int]);
            let rest = (m - i - 1) as nat;
            lemma_bit_product(i, (m - i) as nat);
            lemma_parity(pattern_of(prev) as int, bit(i) as int, bit(rest) as int);
        }
    }
}

/// A pattern that is risky stays so for a smaller gap, and probes of other than
/// twelve cells are judged alike.
pub proof fn law_risk_is_monotone(nprobe: int, bits: int, probe: int, next: int, farther: int)
    requires
        next <= farther,
        farther <= i64::MAX,
    ensures
        risky(nprobe, bits, probe, farther) ==> risky(nprobe, bits, probe, next),
        nprobe != 12 ==> risky(nprobe, bits, probe, next) == risky(10, bits, probe, next),
{
}

/// The patterns that are risky where the next centroid is no farther than the
/// last one probed: six for a probe of twelve cells, seven for any other.
pub proof fn law_risky_patterns(nprobe: int)
    ensures
        ({
            let patterns = if nprobe == 12 {
                set![0b00110int, 0b01010, 0b01100, 0b10010, 0b10011, 0b11100]
            } else {
                set![0b00110int, 0b01010, 0b01100, 0b10010, 0b10011, 0b10110, 0b11100]
            };
            &&& forall|bits: int| risky(nprobe, bits, 0, 0) <==> #[trigger] patterns.contains(bits)
            &&& patterns.len() == if nprobe == 12 {
                6int
            } else {
                7int
            }
        }),
{
    let six = set![0b00110int, 0b01010, 0b01100, 0b10010, 0b10011, 0b11100];
    let seven = set![0b00110int, 0b01010, 0b01100, 0b10010, 0b10011, 0b10110, 0b11100];
    assert(six.len() == 6);
    assert(seven.len() == 7);
}

/// Where one cell holds all vectors, a search is exact: it meets the `k` nearest
/// vectors in order, counts the frauds among them, and forms their pattern.
pub proof fn law_single_cell_search_is_exact(
    ivf: &IVFIndex,
    ds: &Dataset,
    q: Seq<i16>,
    k: nat,
    nprobe: nat,
    indices: Seq<usize>,
)
    requires
        has_single_cell(ds),
        k > 0,
        nprobe > 0,
        ds.is_knn(q, k, indices),
    ensures
        ivf.vote(ds, q, k, nprobe) == frauds_among(ds.labels@, indices),
        frauds_in(ivf.neighbors(ds, q, k, nprobe)) == frauds_among(ds.labels@, indices),
        ivf.neighbors(ds, q, k, nprobe).len() == indices.len(),
        forall|j: int|
            0 <= j < indices.len() ==> #[trigger] ivf.neighbors(ds, q, k, nprobe)[j] == (
                sq_dist(q, ds.vector(indices[j] as int)) as i64,
                ds.labels@[indices[j] as int] as usize,
            ),
        forall|i: nat|
            #[trigger] has_bit(pattern_of(ivf.neighbors(ds, q, k, nprobe)), i) <==> i
                < indices.len() && ds.labels@[indices[i as int] as int] != 0,
{
    let dists = ds.distances(q);
    let best = nearest(dists, k);
    let found = Seq::new(best.len(), |j: int| best[j].1);
    assert(dists.len() <= usize::MAX);
    lemma_nearest(dists, k);
    ds.lemma_knn(q, k, best, found);
    law_knn_is_unique(ds, q, k, found, indices);
    lemma_single_cell(ds, q, k, ds.count as nat);
    assert(dists.take(ds.count as int) =~= dists);
    lemma_frauds_labelled(best, ds.labels@, found);

    let ranked = Seq::new(ds.num_cells as nat, |c: int| ivf.boosted(ds, q, c) as i64);
    lemma_nearest(ranked, IVF_NPROBE_REPAIR as nat);
    let order = ivf.cell_order(ds, q).take(1);
    assert(order.len() == 1 && order[0].1 == 0);
    reveal_with_fuel(scanned, 3);
    let all = with_cell(ds, q, k, 0, ds.count as nat, Seq::empty());
    assert(scanned(ds, q, k, order, 0, Seq::empty()) == all);
    assert(ivf.neighbors(ds, q, k, nprobe) == all);
    assert forall|j: int| 0 <= j < indices.len() implies #[trigger] all[j] == (
        sq_dist(q, ds.vector(indices[j] as int)) as i64,
        ds.labels@[indices[j] as int] as usize,
    ) by {
        assert(indices[j] == best[j].1);
        assert(best[j].0 == dists[best[j].1 as int]);
    }
    assert forall|i: nat| #[trigger]
        has_bit(pattern_of(all), i) <==> i < indices.len() && ds.labels@[indices[i as int] as int]
            != 0 by {
        law_pattern_bits(all, i);
    }
}

} // verus!
