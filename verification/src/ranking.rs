//! Bounded lists of the nearest candidates.
//!
//! A candidate is a pair of a distance and a tag. A list holds candidates in
//! ascending order of distance; of two at the same distance the one that came
//! first stands first.

use vstd::prelude::*;

verus! {

/// The first position from `from` on whose candidate is farther than `dist`.
pub open spec fn place(best: Seq<(i64, usize)>, dist: i64, from: int) -> int
    decreases best.len() - from,
{
    if from < 0 || from >= best.len() || best[from].0 > dist {
        from
    } else {
        place(best, dist, from + 1)
    }
}

/// The list after one more candidate has been offered to it: the candidate
/// goes in front of the first farther one, and what exceeds `k` candidates
/// falls off the end.
pub open spec fn offered(best: Seq<(i64, usize)>, k: nat, dist: i64, tag: usize) -> Seq<
    (i64, usize),
> {
    let longer = best.insert(place(best, dist, 0), (dist, tag));
    if longer.len() > k {
        longer.take(k as int)
    } else {
        longer
    }
}

/// The list after every distance of `dists` has been offered in turn, each
/// tagged with its position.
pub open spec fn nearest(dists: Seq<i64>, k: nat) -> Seq<(i64, usize)>
    decreases dists.len(),
{
    if dists.len() == 0 {
        Seq::empty()
    } else {
        offered(
            nearest(dists.drop_last(), k),
            k,
            dists.last(),
            (dists.len() - 1) as usize,
        )
    }
}

/// Candidate order: by distance, then by tag.
pub open spec fn before(a: (i64, usize), b: (i64, usize)) -> bool {
    a.0 < b.0 || (a.0 == b.0 && a.1 < b.1)
}

/// Whether the distances of a list ascend.
pub open spec fn ascending(best: Seq<(i64, usize)>) -> bool {
    forall|i: int, j: int| 0 <= i <= j < best.len() ==> (#[trigger] best[i]).0 <= (#[trigger] best[j]).0
}

/// Whether position `t` is listed.
pub open spec fn listed(best: Seq<(i64, usize)>, t: int) -> bool {
    exists|j: int| 0 <= j < best.len() && (#[trigger] best[j]).1 == t
}

/// Whether `best` is the list of the `k` first positions of `dists` in the
/// candidate order.
pub open spec fn is_nearest(best: Seq<(i64, usize)>, dists: Seq<i64>, k: nat) -> bool {
    &&& best.len() == if dists.len() <= k {
        dists.len()
    } else {
        k
    }
    &&& forall|j: int|
        0 <= j < best.len() ==> (#[trigger] best[j]).1 < dists.len() && best[j].0
            == dists[best[j].1 as int]
    &&& forall|i: int, j: int|
        0 <= i < j < best.len() ==> before(#[trigger] best[i], #[trigger] best[j])
    &&& forall|t: int, j: int|
        #![trigger dists[t], best[j]]
        0 <= t < dists.len() && !listed(best, t) && 0 <= j < best.len() ==> best[j].0 < dists[t]
            || (best[j].0 == dists[t] && best[j].1 < t)
}

/// `place` finds a position inside the list, behind every candidate that is no
/// farther, as long as the list ascends.
pub proof fn lemma_place(best: Seq<(i64, usize)>, dist: i64, from: int)
    requires
        0 <= from <= best.len(),
    ensures
        from <= place(best, dist, from) <= best.len(),
        forall|i: int| from <= i < place(best, dist, from) ==> (#[trigger] best[i]).0 <= dist,
        place(best, dist, from) < best.len() ==> best[place(best, dist, from)].0 > dist,
    decreases best.len() - from,
{
    if from < best.len() && best[from].0 <= dist {
        lemma_place(best, dist, from + 1);
    }
}

/// Offering a candidate keeps a list in order and within its bound.
pub proof fn lemma_offered_ascending(best: Seq<(i64, usize)>, k: nat, dist: i64, tag: usize)
    requires
        ascending(best),
        best.len() <= k,
    ensures
        ascending(offered(best, k, dist, tag)),
        offered(best, k, dist, tag).len() <= k,
        offered(best, k, dist, tag).len() >= best.len(),
        best.len() < k ==> offered(best, k, dist, tag).len() == best.len() + 1,
{
    lemma_place(best, dist, 0);
    let p = place(best, dist, 0);
    let longer = best.insert(p, (dist, tag));
    assert(ascending(longer)) by {
        assert forall|i: int, j: int| 0 <= i <= j < longer.len() implies (#[trigger] longer[i]).0 <= (
        #[trigger] longer[j]).0 by {
            if p < best.len() {
                assert(forall|m: int| p <= m < best.len() ==> best[p].0 <= (#[trigger] best[m]).0);
            }
        }
    }
}

/// A full list is left as it is by a candidate that is no nearer than its last.
pub proof fn lemma_offered_too_far(best: Seq<(i64, usize)>, k: nat, dist: i64, tag: usize)
    requires
        ascending(best),
        best.len() == k,
        k > 0,
        dist >= best[k - 1].0,
    ensures
        offered(best, k, dist, tag) == best,
{
    lemma_place(best, dist, 0);
    assert(place(best, dist, 0) == best.len());
    assert(offered(best, k, dist, tag) =~= best);
}

/// One more distance: the listed candidates are in order and rightly valued.
proof fn lemma_nearest_listed(old_best: Seq<(i64, usize)>, prev: Seq<i64>, d: i64, k: nat)
    requires
        prev.len() < usize::MAX,
        is_nearest(old_best, prev, k),
    ensures
        ({
            let best = offered(old_best, k, d, prev.len() as usize);
            let dists = prev.push(d);
            &&& best.len() == if dists.len() <= k {
                dists.len()
            } else {
                k
            }
            &&& forall|j: int|
                0 <= j < best.len() ==> (#[trigger] best[j]).1 < dists.len() && best[j].0
                    == dists[best[j].1 as int]
            &&& forall|i: int, j: int|
                0 <= i < j < best.len() ==> before(#[trigger] best[i], #[trigger] best[j])
        }),
{
    let p = place(old_best, d, 0);
    let longer = old_best.insert(p, (d, prev.len() as usize));
    lemma_place(old_best, d, 0);
    assert forall|i: int, j: int| 0 <= i < j < longer.len() implies before(
        #[trigger] longer[i],
        #[trigger] longer[j],
    ) by {
        if p <= i && p < old_best.len() {
            if i == p && j > p + 1 {
                assert(before(old_best[p], old_best[j - 1]));
            }
        }
    }
}

/// One more distance: what is not listed stands behind what is.
proof fn lemma_nearest_unlisted(
    old_best: Seq<(i64, usize)>,
    prev: Seq<i64>,
    d: i64,
    k: nat,
    t: int,
    j: int,
)
    requires
        prev.len() < usize::MAX,
        is_nearest(old_best, prev, k),
        0 <= t <= prev.len(),
        !listed(offered(old_best, k, d, prev.len() as usize), t),
        0 <= j < offered(old_best, k, d, prev.len() as usize).len(),
    ensures
        ({
            let best = offered(old_best, k, d, prev.len() as usize);
            let dt = prev.push(d)[t];
            best[j].0 < dt || (best[j].0 == dt && best[j].1 < t)
        }),
{
    let n = prev.len();
    let p = place(old_best, d, 0);
    let longer = old_best.insert(p, (d, n as usize));
    let best = offered(old_best, k, d, n as usize);
    lemma_place(old_best, d, 0);
    lemma_nearest_listed(old_best, prev, d, k);
    assert(best[j] == longer[j]);
    if t == n {
        // The new candidate fell off the end, so it stands behind all others.
        if p < best.len() {
            assert(best[p].1 == t);
        }
        assert(longer[j] == old_best[j]);
    } else if listed(old_best, t) {
        // Candidate `t` fell off the end of a full list.
        let m = choose|m: int| 0 <= m < old_best.len() && (#[trigger] old_best[m]).1 == t;
        if m < p {
            assert(longer[m] == old_best[m]);
            assert(best[m].1 == t);
        } else {
            assert(longer[m + 1] == old_best[m]);
            if m + 1 < best.len() {
                assert(best[m + 1].1 == t);
            }
            assert(m == old_best.len() - 1);
            if j < p {
                assert(before(old_best[j], old_best[m]));
            } else if j > p {
                assert(before(old_best[j - 1], old_best[m]));
            } else if p < m {
                assert(before(old_best[p], old_best[m]));
            }
        }
    } else {
        assert(prev[t] == prev.push(d)[t]);
        if j < p {
            assert(longer[j] == old_best[j]);
        } else if j > p {
            assert(longer[j] == old_best[j - 1]);
        } else if p < old_best.len() {
            assert(old_best[p].0 > d);
        } else {
            // The list was not full, so it held every earlier candidate.
            assert(old_best.len() == n);
            lemma_all_listed(old_best, prev);
            assert(listed(old_best, t));
        }
    }
}

/// `nearest` lists the `k` first positions in the candidate order.
pub proof fn lemma_nearest(dists: Seq<i64>, k: nat)
    requires
        dists.len() <= usize::MAX,
    ensures
        is_nearest(nearest(dists, k), dists, k),
        ascending(nearest(dists, k)),
    decreases dists.len(),
{
    let best = nearest(dists, k);
    if dists.len() > 0 {
        let prev = dists.drop_last();
        let d = dists.last();
        let old_best = nearest(prev, k);
        lemma_nearest(prev, k);
        assert(prev.push(d) =~= dists);
        lemma_nearest_listed(old_best, prev, d, k);
        lemma_offered_ascending(old_best, k, d, prev.len() as usize);
        assert forall|t: int, j: int|
            #![trigger dists[t], best[j]]
            0 <= t < dists.len() && !listed(best, t) && 0 <= j < best.len() implies best[j].0
            < dists[t] || (best[j].0 == dists[t] && best[j].1 < t) by {
            lemma_nearest_unlisted(old_best, prev, d, k, t, j);
        }
    }
}

/// A list of as many distinct positions as there are holds every position.
proof fn lemma_all_listed(best: Seq<(i64, usize)>, dists: Seq<i64>)
    requires
        best.len() == dists.len(),
        forall|j: int| 0 <= j < best.len() ==> (#[trigger] best[j]).1 < dists.len(),
        forall|i: int, j: int|
            0 <= i < j < best.len() ==> before(#[trigger] best[i], #[trigger] best[j]),
        forall|j: int| 0 <= j < best.len() ==> (#[trigger] best[j]).0 == dists[best[j].1 as int],
    ensures
        forall|t: int| 0 <= t < dists.len() ==> listed(best, t),
{
    let n = dists.len() as int;
    let tags = best.map_values(|e: (i64, usize)| e.1 as int);
    assert(tags.no_duplicates()) by {
        assert forall|i: int, j: int|
            0 <= i < tags.len() && 0 <= j < tags.len() && i != j implies tags[i] != tags[j] by {
            if i < j {
                assert(before(best[i], best[j]));
            } else {
                assert(before(best[j], best[i]));
            }
        }
    }
    let all = vstd::set_lib::set_int_range(0, n);
    vstd::set_lib::lemma_int_range(0, n);
    tags.unique_seq_to_set();
    assert(tags.to_set().subset_of(all));
    vstd::set_lib::lemma_subset_equality(tags.to_set(), all);
    assert forall|t: int| 0 <= t < dists.len() implies listed(best, t) by {
        assert(all.contains(t));
        assert(tags.contains(t));
        let j = choose|j: int| 0 <= j < tags.len() && tags[j] == t;
        assert(best[j].1 == t);
    }
}

/// Offers one candidate to a list of at most `k`.
pub fn offer(best: &mut Vec<(i64, usize)>, k: usize, dist: i64, tag: usize)
    requires
        old(best)@.len() <= k,
    ensures
        final(best)@ == offered(old(best)@, k as nat, dist, tag),
        final(best)@.len() <= k,
{
    let mut p: usize = 0;
    while p < best.len() && best[p].0 <= dist
        invariant
            p <= best@.len(),
            best@ == old(best)@,
            place(best@, dist, 0) == place(best@, dist, p as int),
        decreases best@.len() - p,
    {
        p = p + 1;
    }
    if best.len() < k {
        best.insert(p, (dist, tag));
    } else if p < k {
        best.insert(p, (dist, tag));
        best.pop();
        proof {
            let longer = old(best)@.insert(p as int, (dist, tag));
            assert(longer.take(k as int) =~= longer.drop_last());
        }
    } else {
        proof {
            let longer = old(best)@.insert(p as int, (dist, tag));
            assert(longer.take(k as int) =~= old(best)@);
        }
    }
}

} // verus!
