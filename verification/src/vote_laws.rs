//! What the vote of the nearest neighbors counts.

use crate::dataset::{frauds_among, Dataset};
use crate::distance::{sq_dist, DIMS};
use crate::ivf::{cell_frauds, cells_with_key, frauds_in, key_of, passes_over, pattern_of, risky,
    scanned, with_cell, IVFIndex, IVF_EARLY_DISTANCE_LIMIT, IVF_NPARTITIONS, IVF_NPROBE_EASY,
    IVF_NPROBE_HARD, IVF_NPROBE_REPAIR, PARTITION_CELLS};
use crate::ranking::{ascending, lemma_nearest, lemma_offered_ascending, lemma_place, listed,
    nearest, offered, place};
use crate::search_laws::{considered, law_neighbors_ascend, lemma_cell_considers,
    lemma_cells_with_key, lemma_scan_considers, lemma_with_cell};
use vstd::prelude::*;

verus! {

/// An easy search probes one cell, a hard one eight, a repair forty-eight; there
/// are sixteen partitions of eight cells.
pub proof fn law_search_sizes()
    ensures
        IVF_NPROBE_EASY == 1,
        IVF_NPROBE_HARD == 8,
        IVF_NPROBE_REPAIR == 48,
        IVF_NPARTITIONS == 16,
        PARTITION_CELLS == 8,
        IVF_EARLY_DISTANCE_LIMIT == 200_000,
{
}

/// The frauds of a list of neighbors: those whose label is not zero.
pub open spec fn frauds_of(best: Seq<(i64, usize)>) -> Seq<(i64, usize)> {
    best.filter(|e: (i64, usize)| e.1 != 0)
}

/// The number of frauds in a list is that of its entries whose label is not
/// zero.
pub proof fn law_frauds_are_counted(best: Seq<(i64, usize)>)
    ensures
        frauds_in(best) == frauds_of(best).len(),
        frauds_in(best) <= best.len(),
    decreases best.len(),
{
    reveal(Seq::filter);
    if best.len() > 0 {
        law_frauds_are_counted(best.drop_last());
    }
}

/// The number of frauds among vectors is that of the numbers whose label is not
/// zero.
pub proof fn law_frauds_among_are_counted(labels: Seq<u8>, indices: Seq<usize>)
    ensures
        frauds_among(labels, indices) == indices.filter(
            |i: usize| labels[i as int] != 0,
        ).len(),
        frauds_among(labels, indices) <= indices.len(),
    decreases indices.len(),
{
    reveal(Seq::filter);
    if indices.len() > 0 {
        law_frauds_among_are_counted(labels, indices.drop_last());
    }
}

/// The labels of the first `n` vectors of a cell.
pub open spec fn cell_labels(ds: &Dataset, c: int, n: nat) -> Seq<u8> {
    Seq::new(n, |i: int| ds.labels@[ds.cell_indices@[ds.cell_meta@[c].0 + i] as int])
}

/// The number of frauds in a cell is that of its vectors whose label is not
/// zero.
pub proof fn law_cell_frauds_are_counted(ds: &Dataset, c: int, n: nat)
    ensures
        cell_frauds(ds, c, n) == cell_labels(ds, c, n).filter(|l: u8| l != 0).len(),
    decreases n,
{
    reveal(Seq::filter);
    if n > 0 {
        law_cell_frauds_are_counted(ds, c, (n - 1) as nat);
        assert(cell_labels(ds, c, n).drop_last() =~= cell_labels(ds, c, (n - 1) as nat));
    }
}

/// The smallest of two numbers.
pub open spec fn least(a: nat, b: nat) -> nat {
    if a <= b {
        a
    } else {
        b
    }
}

/// The vote is the number of frauds in the list of neighbors of one of two
/// phases. The first one stands where it is unanimous, where no more cells can
/// be probed, or where the pattern is not risky; else the one stands that
/// probes up to forty-eight cells.
pub proof fn law_vote_counts_frauds(
    ivf: &IVFIndex,
    ds: &Dataset,
    q: Seq<i16>,
    k: nat,
    nprobe: nat,
)
    ensures
        ({
            let first = ivf.neighbors(ds, q, k, nprobe);
            let more = least(48, ds.num_cells as nat);
            let second = ivf.neighbors(ds, q, k, more);
            let vote = ivf.vote(ds, q, k, nprobe);
            let is_risky = risky(
                nprobe as int,
                pattern_of(first) as int,
                ivf.probe_distance(ds, q, nprobe),
                ivf.next_distance(ds, q, nprobe),
            );
            &&& vote == frauds_of(first).len() || vote == frauds_of(second).len()
            &&& frauds_of(first).len() == 0 || frauds_of(first).len() >= k ==> vote == frauds_of(
                first,
            ).len()
            &&& nprobe >= more || !is_risky ==> vote == frauds_of(first).len()
            &&& 0 < frauds_of(first).len() < k && nprobe < more && is_risky ==> vote == frauds_of(
                second,
            ).len()
            &&& vote <= k
        }),
{
    let first = ivf.neighbors(ds, q, k, nprobe);
    let more = ivf.probes(ds, IVF_NPROBE_REPAIR as nat);
    let second = ivf.neighbors(ds, q, k, more);
    law_frauds_are_counted(first);
    law_frauds_are_counted(second);
    crate::search_laws::law_neighbors_ascend(ivf, ds, q, k, nprobe);
    crate::search_laws::law_neighbors_ascend(ivf, ds, q, k, more);
}

/// A phase probes as many cells as it is asked to, as long as there are as many
/// and no more than forty-eight.
pub proof fn law_probes(ivf: &IVFIndex, ds: &Dataset, nprobe: nat)
    ensures
        ivf.probes(ds, nprobe) == least(least(nprobe, 48), ds.num_cells as nat),
{
}

/// The distance by which a cell is ranked: that of its centroid, less one where
/// the partition of the query lists the cell.
pub open spec fn ranking_distance(ivf: &IVFIndex, ds: &Dataset, q: Seq<i16>, c: int) -> int {
    sq_dist(q, ds.centroids@[c]@) - if ivf.lists(key_of(q), c) {
        1int
    } else {
        0int
    }
}

/// Cells are ranked by the distance of their centroids, with a bonus of one for
/// those that the partition of the query lists. The nearest forty-eight are
/// ranked, each once; of two at the same distance the one of lower number comes
/// first, and no cell that is left out comes before a ranked one.
pub proof fn law_cells_are_ranked(ivf: &IVFIndex, ds: &Dataset, q: Seq<i16>)
    ensures
        ({
            let order = ivf.cell_order(ds, q);
            &&& order.len() == least(48, ds.num_cells as nat)
            &&& forall|i: int|
                0 <= i < order.len() ==> (#[trigger] order[i]).1 < ds.num_cells && order[i].0
                    == ranking_distance(ivf, ds, q, order[i].1 as int)
            &&& forall|i: int, j: int|
                0 <= i < j < order.len() ==> (#[trigger] order[i]).0 < (#[trigger] order[j]).0
                    || order[i].0 == order[j].0 && order[i].1 < order[j].1
            &&& forall|c: int, i: int|
                #![trigger ranking_distance(ivf, ds, q, c), order[i]]
                0 <= c < ds.num_cells && 0 <= i < order.len() && !listed(order, c) ==> order[i].0
                    < ranking_distance(ivf, ds, q, c) || order[i].0 == ranking_distance(
                    ivf,
                    ds,
                    q,
                    c,
                ) && order[i].1 < c
        }),
{
    let ranked = Seq::new(ds.num_cells as nat, |c: int| ivf.boosted(ds, q, c) as i64);
    assert(ranked.len() <= usize::MAX);
    lemma_nearest(ranked, 48);
    assert forall|c: int| 0 <= c < ds.num_cells implies #[trigger] ranked[c] == ranking_distance(
        ivf,
        ds,
        q,
        c,
    ) by {
        crate::distance::lemma_sq_dist_bounds(q, ds.centroids@[c]@, DIMS as nat);
    }
    let order = ivf.cell_order(ds, q);
    assert(order == nearest(ranked, 48));
    assert forall|c: int, i: int|
        #![trigger ranking_distance(ivf, ds, q, c), order[i]]
        0 <= c < ds.num_cells && 0 <= i < order.len() && !listed(order, c) implies order[i].0
        < ranking_distance(ivf, ds, q, c) || order[i].0 == ranking_distance(ivf, ds, q, c)
        && order[i].1 < c by {
        assert(ranked[c] == ranking_distance(ivf, ds, q, c));
    }
    assert forall|i: int, j: int| 0 <= i < j < order.len() implies (#[trigger] order[i]).0 < (
    #[trigger] order[j]).0 || order[i].0 == order[j].0 && order[i].1 < order[j].1 by {
        assert(crate::ranking::before(order[i], order[j]));
    }
}

/// The partition of a query tells whether its amount is large, whether it is
/// far from home, whether there are many transactions in a day, and whether the
/// amount is large over the average: each bit whether a quantized feature
/// exceeds one half.
pub proof fn law_partition_bits(q: Seq<i16>)
    ensures
        0 <= key_of(q) < 16,
        key_of(q) % 2 == 1 <==> q[0] > 5_000,
        key_of(q) / 2 % 2 == 1 <==> q[7] > 5_000,
        key_of(q) / 4 % 2 == 1 <==> q[8] > 5_000,
        key_of(q) / 8 % 2 == 1 <==> q[2] > 5_000,
{
}

/// How small the gap between two centroids has to be for a pattern to be risky,
/// for twelve probed cells and for any other number of them.
pub proof fn law_risk_thresholds(nprobe: int, probe: int, next: int)
    requires
        next != i64::MAX,
    ensures
        nprobe != 12 ==> {
            &&& risky(nprobe, 0b00110, probe, next) <==> next <= probe + 500_000
            &&& risky(nprobe, 0b01010, probe, next) <==> next <= probe + 500_000
            &&& risky(nprobe, 0b01100, probe, next) <==> next <= probe + 600_000
            &&& risky(nprobe, 0b10010, probe, next) <==> next <= probe + 1_200_000
            &&& risky(nprobe, 0b10011, probe, next) <==> next <= probe + 500_000
            &&& risky(nprobe, 0b10110, probe, next) <==> next <= probe + 700_000
            &&& risky(nprobe, 0b11100, probe, next) <==> next <= probe + 150_000
        },
        nprobe == 12 ==> {
            &&& risky(nprobe, 0b00110, probe, next) <==> next <= probe + 1_600_000
            &&& risky(nprobe, 0b01010, probe, next) <==> next <= probe + 3_800_000
            &&& risky(nprobe, 0b01100, probe, next) <==> next <= probe + 1_000_000
            &&& risky(nprobe, 0b10010, probe, next) <==> next <= probe + 1_800_000
            &&& risky(nprobe, 0b10011, probe, next) <==> next <= probe + 500_000
            &&& risky(nprobe, 0b11100, probe, next) <==> next <= probe + 150_000
        },
        forall|bits: int| !#[trigger] risky(nprobe, bits, probe, i64::MAX as int),
{
}

/// The gap is measured from the last cell that is probed to the first ranked one
/// that is not; without either it has no end.
pub proof fn law_gap_is_between_cells(ivf: &IVFIndex, ds: &Dataset, q: Seq<i16>, nprobe: nat)
    ensures
        ({
            let n = least(least(nprobe, 48), ds.num_cells as nat);
            let order = ivf.cell_order(ds, q);
            &&& n > 0 ==> ivf.probe_distance(ds, q, nprobe) == order[n - 1].0
            &&& n == 0 ==> ivf.probe_distance(ds, q, nprobe) == i64::MAX
            &&& n < 48 && n < ds.num_cells ==> ivf.next_distance(ds, q, nprobe)
                == order[n as int].0
            &&& n == 48 || n == ds.num_cells ==> ivf.next_distance(ds, q, nprobe) == i64::MAX
        }),
{
    law_cells_are_ranked(ivf, ds, q);
}

/// Where the neighbors of a list come from: for each one the place in an order
/// of cells, and the place in that cell, of a vector of its own.
pub open spec fn traced(
    ds: &Dataset,
    q: Seq<i16>,
    order: Seq<(i64, usize)>,
    best: Seq<(i64, usize)>,
    at: Seq<(int, int)>,
) -> bool {
    &&& at.len() == best.len()
    &&& at.no_duplicates()
    &&& forall|j: int|
        0 <= j < at.len() ==> 0 <= (#[trigger] at[j]).0 < order.len() && is_entry(
            ds,
            q,
            order[at[j].0].1 as int,
            at[j].1,
            best[j],
        )
}

/// Whether an entry is the `i`-th vector of cell `c`: at its distance, with its
/// label.
pub open spec fn is_entry(
    ds: &Dataset,
    q: Seq<i16>,
    c: int,
    i: int,
    entry: (i64, usize),
) -> bool {
    let v = ds.cell_indices@[ds.cell_meta@[c].0 + i] as int;
    &&& 0 <= i < ds.cell_meta@[c].1
    &&& entry.0 == sq_dist(q, ds.vector(v)) as i64
    &&& entry.1 == ds.labels@[v]
}

/// Offering a vector that a list does not hold keeps the list traced.
proof fn lemma_offer_traced(
    ds: &Dataset,
    q: Seq<i16>,
    k: nat,
    order: Seq<(i64, usize)>,
    best: Seq<(i64, usize)>,
    at: Seq<(int, int)>,
    m: int,
    i: int,
) -> (next: Seq<(int, int)>)
    requires
        0 <= m < order.len(),
        0 <= i < ds.cell_len(order[m].1 as int),
        traced(ds, q, order, best, at),
        !at.contains((m, i)),
    ensures
        ({
            let (dist, tag) = ds.candidate(q, order[m].1 as int, i);
            traced(ds, q, order, offered(best, k, dist, tag), next)
        }),
        forall|x: (int, int)| #[trigger] next.contains(x) ==> at.contains(x) || x == (m, i),
{
    let (dist, tag) = ds.candidate(q, order[m].1 as int, i);
    let p = place(best, dist, 0);
    lemma_place(best, dist, 0);
    let longer = best.insert(p, (dist, tag));
    let at_longer = at.insert(p, (m, i));
    let more = offered(best, k, dist, tag);
    let next = at_longer.take(more.len() as int);
    assert forall|j: int| 0 <= j < at_longer.len() implies ({
        &&& 0 <= (#[trigger] at_longer[j]).0 < order.len()
        &&& is_entry(ds, q, order[at_longer[j].0].1 as int, at_longer[j].1, longer[j])
        &&& at.contains(at_longer[j]) || at_longer[j] == (m, i)
    }) by {
        if j < p {
            assert(at_longer[j] == at[j] && longer[j] == best[j]);
        } else if j > p {
            assert(at_longer[j] == at[j - 1] && longer[j] == best[j - 1]);
        }
    }
    assert(at_longer.no_duplicates()) by {
        assert forall|x: int, y: int|
            0 <= x < at_longer.len() && 0 <= y < at_longer.len() && x != y implies at_longer[x]
            != at_longer[y] by {
            let fx = if x < p {
                x
            } else {
                x - 1
            };
            let fy = if y < p {
                y
            } else {
                y - 1
            };
            if x == p {
                assert(at.contains(at[fy]));
            } else if y == p {
                assert(at.contains(at[fx]));
            } else {
                assert(at[fx] != at[fy]);
            }
        }
    }
    assert forall|j: int| 0 <= j < next.len() implies 0 <= (#[trigger] next[j]).0 < order.len()
        && is_entry(ds, q, order[next[j].0].1 as int, next[j].1, more[j]) by {
        assert(next[j] == at_longer[j] && more[j] == longer[j]);
    }
    assert forall|x: (int, int)| #[trigger] next.contains(x) implies at.contains(x) || x == (
        m,
        i,
    ) by {
        let j = choose|j: int| 0 <= j < next.len() && next[j] == x;
        assert(at_longer[j] == x);
    }
    next
}

proof fn lemma_cell_traced(
    ds: &Dataset,
    q: Seq<i16>,
    k: nat,
    order: Seq<(i64, usize)>,
    m: int,
    n: nat,
    best: Seq<(i64, usize)>,
    at: Seq<(int, int)>,
) -> (next: Seq<(int, int)>)
    requires
        0 <= m < order.len(),
        n <= ds.cell_len(order[m].1 as int),
        traced(ds, q, order, best, at),
        forall|x: (int, int)| #[trigger] at.contains(x) ==> x.0 < m,
    ensures
        traced(ds, q, order, with_cell(ds, q, k, order[m].1 as int, n, best), next),
        forall|x: (int, int)| #[trigger] next.contains(x) ==> x.0 < m || x.0 == m && x.1 < n,
    decreases n,
{
    if n > 0 {
        let shorter = with_cell(ds, q, k, order[m].1 as int, (n - 1) as nat, best);
        let before = lemma_cell_traced(ds, q, k, order, m, (n - 1) as nat, best, at);
        lemma_offer_traced(ds, q, k, order, shorter, before, m, n - 1)
    } else {
        at
    }
}

proof fn lemma_scan_traced(
    ds: &Dataset,
    q: Seq<i16>,
    k: nat,
    order: Seq<(i64, usize)>,
    m: int,
    best: Seq<(i64, usize)>,
    at: Seq<(int, int)>,
) -> (next: Seq<(int, int)>)
    requires
        0 <= m <= order.len(),
        traced(ds, q, order, best, at),
        forall|x: (int, int)| #[trigger] at.contains(x) ==> x.0 < m,
    ensures
        traced(ds, q, order, scanned(ds, q, k, order, m, best), next),
    decreases order.len() - m,
{
    if m < order.len() {
        let c = order[m].1 as int;
        if passes_over(ds, q, k, c, best) {
            lemma_scan_traced(ds, q, k, order, m + 1, best, at)
        } else {
            let n = ds.cell_len(c) as nat;
            let after = lemma_cell_traced(ds, q, k, order, m, n, best, at);
            lemma_scan_traced(ds, q, k, order, m + 1, with_cell(ds, q, k, c, n, best), after)
        }
    } else {
        at
    }
}

/// The neighbors of a phase are vectors of the cells that it probes, none of
/// them twice, each at its distance and with its label.
pub proof fn law_neighbors_are_distinct_vectors(
    ivf: &IVFIndex,
    ds: &Dataset,
    q: Seq<i16>,
    k: nat,
    nprobe: nat,
)
    ensures
        exists|at: Seq<(int, int)>|
            traced(
                ds,
                q,
                ivf.cell_order(ds, q).take(least(least(nprobe, 48), ds.num_cells as nat) as int),
                ivf.neighbors(ds, q, k, nprobe),
                at,
            ),
{
    let n = least(least(nprobe, 48), ds.num_cells as nat);
    assert(n == ivf.probes(ds, nprobe));
    let order = ivf.cell_order(ds, q).take(n as int);
    let none = Seq::<(int, int)>::empty();
    assert(traced(ds, q, order, Seq::empty(), none));
    let at = lemma_scan_traced(ds, q, k, order, 0, Seq::empty(), none);
    assert(traced(ds, q, order, ivf.neighbors(ds, q, k, nprobe), at));
}

/// Whether a list leaves a cell aside: it is full, and its last neighbor is no
/// farther than the cell's centroid, or than the cell's lower bound.
pub open spec fn left_aside(
    ds: &Dataset,
    q: Seq<i16>,
    k: nat,
    c: int,
    best: Seq<(i64, usize)>,
) -> bool {
    best.len() == k && (sq_dist(q, ds.centroids@[c]@) >= best[k - 1].0 || ds.bound_of(q, c)
        >= best[k - 1].0)
}

proof fn lemma_offer_improves(best: Seq<(i64, usize)>, k: nat, dist: i64, tag: usize)
    requires
        k > 0,
        ascending(best),
        best.len() == k,
    ensures
        offered(best, k, dist, tag).len() == k,
        offered(best, k, dist, tag)[k - 1].0 <= best[k - 1].0,
{
    lemma_place(best, dist, 0);
    lemma_offered_ascending(best, k, dist, tag);
    let p = place(best, dist, 0);
    let longer = best.insert(p, (dist, tag));
    assert(offered(best, k, dist, tag)[k - 1] == longer[k - 1]);
    if p < k - 1 {
        assert(longer[k - 1] == best[k - 2]);
    } else if p == k - 1 {
        assert(longer[k - 1].0 == dist);
    } else {
        assert(longer[k - 1] == best[k - 1]);
    }
}

proof fn lemma_cell_improves(
    ds: &Dataset,
    q: Seq<i16>,
    k: nat,
    c: int,
    n: nat,
    best: Seq<(i64, usize)>,
)
    requires
        k > 0,
        ascending(best),
        best.len() == k,
    ensures
        with_cell(ds, q, k, c, n, best).len() == k,
        with_cell(ds, q, k, c, n, best)[k - 1].0 <= best[k - 1].0,
    decreases n,
{
    if n > 0 {
        lemma_cell_improves(ds, q, k, c, (n - 1) as nat, best);
        lemma_with_cell(ds, q, k, c, (n - 1) as nat, best);
        let (dist, tag) = ds.candidate(q, c, n - 1);
        lemma_offer_improves(with_cell(ds, q, k, c, (n - 1) as nat, best), k, dist, tag);
    }
}

proof fn lemma_full_list_only_improves(
    ds: &Dataset,
    q: Seq<i16>,
    k: nat,
    order: Seq<(i64, usize)>,
    i: int,
    best: Seq<(i64, usize)>,
)
    requires
        k > 0,
        ascending(best),
        best.len() == k,
    ensures
        scanned(ds, q, k, order, i, best).len() == k,
        scanned(ds, q, k, order, i, best)[k - 1].0 <= best[k - 1].0,
    decreases order.len() - i,
{
    if 0 <= i < order.len() {
        let c = order[i].1 as int;
        let n = ds.cell_len(c) as nat;
        lemma_cell_improves(ds, q, k, c, n, best);
        lemma_with_cell(ds, q, k, c, n, best);
        lemma_full_list_only_improves(ds, q, k, order, i + 1, best);
        lemma_full_list_only_improves(
            ds,
            q,
            k,
            order,
            i + 1,
            with_cell(ds, q, k, c, n, best),
        );
    }
}

proof fn lemma_every_cell_is_weighed(
    ds: &Dataset,
    q: Seq<i16>,
    k: nat,
    order: Seq<(i64, usize)>,
    from: int,
    best: Seq<(i64, usize)>,
    m: int,
    i: int,
)
    requires
        k > 0,
        0 <= from <= m < order.len(),
        0 <= i < ds.cell_len(order[m].1 as int),
        ascending(best),
        best.len() <= k,
    ensures
        ({
            let end = scanned(ds, q, k, order, from, best);
            let c = order[m].1 as int;
            considered(end, k, ds.candidate(q, c, i)) || left_aside(ds, q, k, c, end)
        }),
    decreases order.len() - from,
{
    let c = order[from].1 as int;
    let n = ds.cell_len(c) as nat;
    let after = with_cell(ds, q, k, c, n, best);
    lemma_with_cell(ds, q, k, c, n, best);
    if from < m {
        if passes_over(ds, q, k, c, best) {
            lemma_every_cell_is_weighed(ds, q, k, order, from + 1, best, m, i);
        } else {
            lemma_every_cell_is_weighed(ds, q, k, order, from + 1, after, m, i);
        }
    } else if passes_over(ds, q, k, c, best) {
        lemma_full_list_only_improves(ds, q, k, order, from + 1, best);
    } else {
        let candidate = ds.candidate(q, c, i);
        lemma_cell_considers(ds, q, k, c, n, best, candidate);
        lemma_scan_considers(ds, q, k, order, from + 1, after, candidate);
    }
}

/// Every vector of every cell that a phase probes is weighed: it is among the
/// neighbors, or there are `k` that are no farther, or its cell is left aside
/// for its distance.
pub proof fn law_every_probed_vector_is_weighed(
    ivf: &IVFIndex,
    ds: &Dataset,
    q: Seq<i16>,
    k: nat,
    nprobe: nat,
    m: int,
    i: int,
)
    requires
        k > 0,
        0 <= m < least(least(nprobe, 48), ds.num_cells as nat),
        0 <= i < ds.cell_meta@[ivf.cell_order(ds, q)[m].1 as int].1,
    ensures
        ({
            let best = ivf.neighbors(ds, q, k, nprobe);
            let c = ivf.cell_order(ds, q)[m].1 as int;
            let v = ds.cell_indices@[ds.cell_meta@[c].0 + i] as int;
            let entry = (sq_dist(q, ds.vector(v)) as i64, ds.labels@[v] as usize);
            ||| best.contains(entry)
            ||| best.len() == k && best[k - 1].0 <= entry.0
            ||| left_aside(ds, q, k, c, best)
        }),
{
    law_cells_are_ranked(ivf, ds, q);
    let order = ivf.cell_order(ds, q).take(ivf.probes(ds, nprobe) as int);
    assert(order[m] == ivf.cell_order(ds, q)[m]);
    lemma_every_cell_is_weighed(ds, q, k, order, 0, Seq::empty(), m, i);
}

/// The last cell of an order is searched after all others.
proof fn lemma_last_cell(
    ds: &Dataset,
    q: Seq<i16>,
    k: nat,
    order: Seq<(i64, usize)>,
    from: int,
    best: Seq<(i64, usize)>,
)
    requires
        0 <= from < order.len(),
    ensures
        ({
            let before = scanned(ds, q, k, order.drop_last(), from, best);
            let c = order.last().1 as int;
            scanned(ds, q, k, order, from, best) == if passes_over(ds, q, k, c, before) {
                before
            } else {
                with_cell(ds, q, k, c, ds.cell_len(c) as nat, before)
            }
        }),
    decreases order.len() - from,
{
    let c = order[from].1 as int;
    let after = with_cell(ds, q, k, c, ds.cell_len(c) as nat, best);
    if from + 1 < order.len() {
        assert(order.drop_last()[from] == order[from]);
        lemma_last_cell(ds, q, k, order, from + 1, best);
        lemma_last_cell(ds, q, k, order, from + 1, after);
    } else {
        assert(scanned(ds, q, k, order, from + 1, best) == best);
        assert(scanned(ds, q, k, order, from + 1, after) == after);
    }
}

/// One more probe changes nothing where the neighbors are complete and the last
/// of them is no farther than the centroid of the next cell or than its lower
/// bound, and nothing where that cell is empty; it weighs every vector of any
/// other cell.
pub proof fn law_next_probe(ivf: &IVFIndex, ds: &Dataset, q: Seq<i16>, k: nat, nprobe: nat)
    requires
        k > 0,
        nprobe < 48,
        nprobe < ds.num_cells,
    ensures
        ({
            let before = ivf.neighbors(ds, q, k, nprobe);
            let after = ivf.neighbors(ds, q, k, nprobe + 1);
            let c = ivf.cell_order(ds, q)[nprobe as int].1 as int;
            let reach = before[k - 1].0 as int;
            let complete = before.len() == k;
            &&& complete && reach <= sq_dist(q, ds.centroids@[c]@) ==> after == before
            &&& complete && reach <= ds.bound_of(q, c) ==> after == before
            &&& ds.cell_meta@[c].1 == 0 ==> after == before
            &&& !complete || sq_dist(q, ds.centroids@[c]@) < reach && ds.bound_of(q, c) < reach
                ==> forall|i: int|
                0 <= i < ds.cell_meta@[c].1 ==> considered(
                    after,
                    k,
                    #[trigger] ds.candidate(q, c, i),
                )
        }),
{
    law_cells_are_ranked(ivf, ds, q);
    let cells = ivf.cell_order(ds, q);
    let order = cells.take(nprobe as int + 1);
    let c = cells[nprobe as int].1 as int;
    let n = ds.cell_len(c) as nat;
    assert(order.drop_last() =~= cells.take(nprobe as int));
    lemma_last_cell(ds, q, k, order, 0, Seq::empty());
    let before = ivf.neighbors(ds, q, k, nprobe);
    if !passes_over(ds, q, k, c, before) {
        law_neighbors_ascend(ivf, ds, q, k, nprobe);
        assert forall|i: int| 0 <= i < n implies considered(
            with_cell(ds, q, k, c, n, before),
            k,
            #[trigger] ds.candidate(q, c, i),
        ) by {
            lemma_cell_considers(ds, q, k, c, n, before, ds.candidate(q, c, i));
        }
    }
}

proof fn lemma_cells_ascend(ds: &Dataset, key: int, n: nat)
    requires
        n <= u32::MAX,
    ensures
        forall|i: int, j: int|
            0 <= i < j < cells_with_key(ds, key, n).len() ==> (#[trigger] cells_with_key(
                ds,
                key,
                n,
            )[i]) < (#[trigger] cells_with_key(ds, key, n)[j]),
        forall|i: int|
            0 <= i < cells_with_key(ds, key, n).len() ==> (#[trigger] cells_with_key(ds, key, n)[i])
                < n,
    decreases n,
{
    if n > 0 {
        lemma_cells_ascend(ds, key, (n - 1) as nat);
        let shorter = cells_with_key(ds, key, (n - 1) as nat);
        let cells = cells_with_key(ds, key, n);
        assert forall|i: int| 0 <= i < cells.len() implies #[trigger] cells[i] < n by {
            if i < shorter.len() {
                assert(cells[i] == shorter[i]);
            }
        }
        assert forall|i: int, j: int| 0 <= i < j < cells.len() implies (#[trigger] cells[i]) < (
        #[trigger] cells[j]) by {
            assert(cells[i] == shorter[i]);
            if j < shorter.len() {
                assert(cells[j] == shorter[j]);
            }
        }
    }
}

/// A partition lists the cells with its key in the order of their numbers, and
/// the first eight of them where there are more: with a cell it lists every one
/// of lower number, and it leaves a cell out only where it lists eight. Its
/// other places hold the largest number.
pub proof fn law_partition_lists_the_first(
    ivf: &IVFIndex,
    ds: &Dataset,
    key: int,
    n: nat,
    a: int,
    b: int,
)
    requires
        n <= u32::MAX,
        ivf.partition_done(ds, key, n),
        0 <= a < n,
        key_of(ds.centroids@[a]@) == key,
    ensures
        ivf.part_count@[key] <= 8,
        ivf.part_count@[key] < 8 ==> ivf.lists(key, a),
        a < b && ivf.lists(key, b) ==> ivf.lists(key, a),
        forall|i: int|
            ivf.part_count@[key] <= i < 8 ==> #[trigger] ivf.part_by_key@[key]@[i] == 0xffff_ffff,
{
    let cells = cells_with_key(ds, key, n);
    lemma_cells_with_key(ds, key, n);
    lemma_cells_ascend(ds, key, n);
    assert(key_of(ds.centroids@[a]@) == key);
    assert(cells.contains(a as u32));
    let i = choose|i: int| 0 <= i < cells.len() && cells[i] == a as u32;
    if ivf.part_count@[key] < 8 {
        assert(ivf.part_by_key@[key]@[i] == a);
    }
    if a < b && ivf.lists(key, b) {
        let j = choose|j: int|
            0 <= j < ivf.part_count@[key] && #[trigger] ivf.part_by_key@[key]@[j] == b;
        assert(cells[j] == b);
        if j <= i {
            assert(cells[j] <= cells[i]);
        }
        assert(ivf.part_by_key@[key]@[i] == a);
    }
}

} // verus!
