//! A small LRU cache of fraud counts, keyed by a hash of the quantized query.

use crate::distance::DIMS;
use std::collections::HashMap;
use vstd::prelude::*;
use vstd::std_specs::iter::IteratorSpec;

verus! {

broadcast use vstd::std_specs::hash::group_hash_axioms;

/// Most entries that a cache holds.
pub const CAPACITY: usize = 1024;

/// Where the hash of every query starts.
pub const HASH_START: u64 = 0xcbf2_9ce4_8422_2325;

/// What the hash is multiplied with after every component.
pub const HASH_FACTOR: u64 = 0x100_0000_01b3;

/// A component as 64 bits, in two's complement.
pub open spec fn extended(x: i16) -> u64 {
    if x < 0 {
        (x + 0x1_0000_0000_0000_0000) as u64
    } else {
        x as u64
    }
}

/// The hash of the first `n` components of a query.
pub open spec fn hash_over(q: Seq<i16>, n: nat) -> u64
    decreases n,
{
    if n == 0 {
        HASH_START
    } else {
        (((hash_over(q, (n - 1) as nat) ^ extended(q[n - 1])) * HASH_FACTOR)
            % 0x1_0000_0000_0000_0000) as u64
    }
}

/// The hash of a query.
pub open spec fn query_hash(q: Seq<i16>) -> u64 {
    hash_over(q, DIMS as nat)
}

/// Hashes a query.
pub fn hash_query(q: &[i16; DIMS]) -> (h: u64)
    ensures
        h == query_hash(q@),
{
    let mut h: u64 = HASH_START;
    let mut d: usize = 0;
    while d < DIMS
        invariant
            d <= DIMS,
            h == hash_over(q@, d as nat),
        decreases DIMS - d,
    {
        let x: i16 = q[d];
        let bits: u64 = if x < 0 {
            u64::MAX - (-1 - x as i64) as u64
        } else {
            x as u64
        };
        h = (h ^ bits).wrapping_mul(HASH_FACTOR);
        d = d + 1;
    }
    h
}

/// A cache: for each hash the fraud count and the time of the last use.
pub struct LruCache {
    pub map: HashMap<u64, (u8, u64)>,
    pub tick: u64,
}

/// The time after one more use.
pub open spec fn next_tick(tick: u64) -> u64 {
    ((tick + 1) % 0x1_0000_0000_0000_0000) as u64
}

/// Whether no entry was used longer ago than that of `key`.
pub open spec fn is_oldest(entries: Map<u64, (u8, u64)>, key: u64) -> bool {
    &&& entries.contains_key(key)
    &&& forall|k: u64| #[trigger] entries.contains_key(k) ==> entries[key].1 <= entries[k].1
}

/// Whether `after` is `before` with one more entry: where the cache is full, an
/// entry that was not used for longest has left.
pub open spec fn entered(
    before: Map<u64, (u8, u64)>,
    after: Map<u64, (u8, u64)>,
    key: u64,
    entry: (u8, u64),
) -> bool {
    if before.len() < CAPACITY {
        after == before.insert(key, entry)
    } else {
        exists|old_key: u64|
            #[trigger] is_oldest(before, old_key) && after == before.remove(old_key).insert(
                key,
                entry,
            )
    }
}

impl LruCache {
    /// Whether the cache holds no more entries than it may.
    pub open spec fn wf(&self) -> bool {
        self.map@.len() <= CAPACITY
    }

    /// An empty cache.
    pub fn new() -> (r: LruCache)
        ensures
            r.wf(),
            r.map@ == Map::<u64, (u8, u64)>::empty(),
            r.tick == 0,
    {
        LruCache { map: HashMap::new(), tick: 0 }
    }
}

/// Look up a cached fraud count for a quantized query. Returns `None` if
/// absent.
pub fn lookup(cache: &mut LruCache, q: &[i16; DIMS]) -> (r: Option<u8>)
    ensures
        final(cache).tick == next_tick(old(cache).tick),
        old(cache).wf() ==> final(cache).wf(),
        r == answer(old(cache).map@, query_hash(q@)),
        used(
            old(cache).map@,
            final(cache).map@,
            Use::Lookup(query_hash(q@)),
            final(cache).tick,
        ),
{
    let key: u64 = hash_query(q);
    cache.tick = cache.tick.wrapping_add(1);
    let found: Option<u8> = match cache.map.get(&key) {
        Some(entry) => Some(entry.0),
        None => None,
    };
    match found {
        Some(value) => {
            cache.map.insert(key, (value, cache.tick));
            Some(value)
        },
        None => None,
    }
}

/// Finds an entry that was not used for longest.
fn find_oldest(map: &HashMap<u64, (u8, u64)>) -> (r: u64)
    requires
        map@.len() > 0,
    ensures
        is_oldest(map@, r),
{
    let mut oldest_key: u64 = 0;
    let mut oldest_tick: u64 = u64::MAX;
    let mut first: bool = true;
    for entry in it: map.iter()
        invariant
            it.seq() == map.iter().remaining(),
            first <==> it.index() == 0,
            !first ==> map@.contains_key(oldest_key) && map@[oldest_key].1 == oldest_tick,
            forall|i: int| 0 <= i < it.index() ==> oldest_tick <= (#[trigger] it.seq()[i]).1.1,
    {
        let k: u64 = *entry.0;
        let t: u64 = entry.1.1;
        if first || t < oldest_tick {
            oldest_key = k;
            oldest_tick = t;
            first = false;
        }
    }
    oldest_key
}

/// Insert a fraud count for a quantized query. Evicts the entry that was not
/// used for longest if the cache is full.
pub fn insert(cache: &mut LruCache, q: &[i16; DIMS], value: u8)
    ensures
        final(cache).tick == next_tick(old(cache).tick),
        old(cache).wf() ==> final(cache).wf(),
        used(
            old(cache).map@,
            final(cache).map@,
            Use::Insert(query_hash(q@), value),
            final(cache).tick,
        ),
{
    let key: u64 = hash_query(q);
    cache.tick = cache.tick.wrapping_add(1);
    if cache.map.len() >= CAPACITY {
        let oldest: u64 = find_oldest(&cache.map);
        cache.map.remove(&oldest);
    }
    cache.map.insert(key, (value, cache.tick));
}

/// The number of entries.
pub fn len(cache: &LruCache) -> (r: usize)
    ensures
        r == cache.map@.len(),
{
    cache.map.len()
}

/// What was inserted is found, until it is evicted.
pub proof fn law_inserted_is_found(
    before: Map<u64, (u8, u64)>,
    after: Map<u64, (u8, u64)>,
    key: u64,
    entry: (u8, u64),
)
    requires
        entered(before, after, key, entry),
    ensures
        after.contains_key(key),
        after[key] == entry,
{
}

/// An insertion changes no entry but its own, and at most one other leaves.
pub proof fn law_insertion_keeps_others(
    before: Map<u64, (u8, u64)>,
    after: Map<u64, (u8, u64)>,
    key: u64,
    entry: (u8, u64),
)
    requires
        entered(before, after, key, entry),
    ensures
        forall|k: u64|
            k != key && #[trigger] after.contains_key(k) ==> before.contains_key(k) && after[k]
                == before[k],
        forall|a: u64, b: u64|
            a != key && b != key && #[trigger] before.contains_key(a)
                && #[trigger] before.contains_key(b) && !after.contains_key(a)
                && !after.contains_key(b) ==> a == b,
        before.len() < CAPACITY ==> forall|k: u64|
            #[trigger] before.contains_key(k) ==> after.contains_key(k),
{
}

/// Whether the entry of `key` was the last one to be used, before the clock
/// wrapped.
pub open spec fn is_newest(entries: Map<u64, (u8, u64)>, key: u64) -> bool {
    &&& entries.contains_key(key)
    &&& forall|k: u64|
        k != key && #[trigger] entries.contains_key(k) ==> entries[k].1 < entries[key].1
}

/// The entry that was used last is not evicted.
pub proof fn law_newest_is_kept(
    before: Map<u64, (u8, u64)>,
    after: Map<u64, (u8, u64)>,
    newest: u64,
    key: u64,
    entry: (u8, u64),
)
    requires
        before.dom().finite(),
        is_newest(before, newest),
        entered(before, after, key, entry),
    ensures
        after.contains_key(newest),
        key != newest ==> after[newest] == before[newest],
{
    if before.len() >= CAPACITY {
        let old_key = choose|old_key: u64|
            #[trigger] is_oldest(before, old_key) && after == before.remove(old_key).insert(
                key,
                entry,
            );
        if old_key == newest {
            let rest = before.dom().remove(newest);
            assert(rest.len() > 0);
            let other = rest.choose();
            assert(before.contains_key(other));
        }
    }
}

/// Using an entry makes it the newest, as long as the clock has not wrapped.
pub proof fn law_use_makes_newest(
    entries: Map<u64, (u8, u64)>,
    key: u64,
    value: u8,
    tick: u64,
)
    requires
        tick < u64::MAX,
        forall|k: u64| #[trigger] entries.contains_key(k) ==> entries[k].1 <= tick,
    ensures
        is_newest(entries.insert(key, (value, next_tick(tick))), key),
        forall|k: u64|
            #[trigger] entries.insert(key, (value, next_tick(tick))).contains_key(k)
                ==> entries.insert(key, (value, next_tick(tick)))[k].1 <= next_tick(tick),
{
}

/// One use of a cache, by the hash of the query.
pub enum Use {
    Lookup(u64),
    Insert(u64, u8),
}

/// Whether one use leads from one state of a cache to another: a lookup renews
/// the entry that it finds, and an insertion enters one.
pub open spec fn used(
    before: Map<u64, (u8, u64)>,
    after: Map<u64, (u8, u64)>,
    it: Use,
    tick: u64,
) -> bool {
    match it {
        Use::Lookup(key) => if before.contains_key(key) {
            after == before.insert(key, (before[key].0, tick))
        } else {
            after == before
        },
        Use::Insert(key, value) => entered(before, after, key, (value, tick)),
    }
}

/// What a lookup of `key` answers.
pub open spec fn answer(entries: Map<u64, (u8, u64)>, key: u64) -> Option<u8> {
    if entries.contains_key(key) {
        Some(entries[key].0)
    } else {
        None
    }
}

/// Whether the states of a cache follow from one another by a run of uses.
pub open spec fn is_run(states: Seq<Map<u64, (u8, u64)>>, uses: Seq<Use>, ticks: Seq<u64>) -> bool {
    &&& states.len() == uses.len() + 1
    &&& ticks.len() == uses.len()
    &&& forall|i: int|
        0 <= i < uses.len() ==> used(states[i], states[i + 1], #[trigger] uses[i], ticks[i])
}

/// Whether a use inserts no query with the hash `key`.
pub open spec fn spares(it: Use, key: u64) -> bool {
    match it {
        Use::Lookup(_) => true,
        Use::Insert(k, _) => k != key,
    }
}

/// Through any run of lookups, and of insertions of other queries while there is
/// room, a lookup keeps its answer: what was inserted is found, and what is
/// absent stays absent.
pub proof fn law_answers_last(
    states: Seq<Map<u64, (u8, u64)>>,
    uses: Seq<Use>,
    ticks: Seq<u64>,
    key: u64,
)
    requires
        is_run(states, uses, ticks),
        forall|i: int| 0 <= i < uses.len() ==> spares(#[trigger] uses[i], key),
        forall|i: int|
            0 <= i < uses.len() && (#[trigger] uses[i]) is Insert ==> states[i].len() < CAPACITY,
    ensures
        answer(states.last(), key) == answer(states[0], key),
    decreases uses.len(),
{
    if uses.len() > 0 {
        let n = uses.len() - 1;
        lemma_run_start(states, uses, ticks);
        assert forall|i: int| 0 <= i < uses.drop_last().len() implies spares(
            #[trigger] uses.drop_last()[i],
            key,
        ) by {
            assert(uses[i] == uses.drop_last()[i]);
        }
        assert forall|i: int|
            0 <= i < uses.drop_last().len() && (
            #[trigger] uses.drop_last()[i]) is Insert implies states.drop_last()[i].len()
            < CAPACITY by {
            assert(uses[i] == uses.drop_last()[i]);
        }
        law_answers_last(states.drop_last(), uses.drop_last(), ticks.drop_last(), key);
        assert(states.drop_last().last() == states[n]);
        assert(used(states[n], states[n + 1], uses[n], ticks[n]));
        assert(spares(uses[n], key));
    }
}

/// A run without its last use is a run.
proof fn lemma_run_start(states: Seq<Map<u64, (u8, u64)>>, uses: Seq<Use>, ticks: Seq<u64>)
    requires
        is_run(states, uses, ticks),
        uses.len() > 0,
    ensures
        is_run(states.drop_last(), uses.drop_last(), ticks.drop_last()),
{
    let shorter = uses.drop_last();
    assert forall|i: int| 0 <= i < shorter.len() implies used(
        states.drop_last()[i],
        states.drop_last()[i + 1],
        #[trigger] shorter[i],
        ticks.drop_last()[i],
    ) by {
        assert(used(states[i], states[i + 1], uses[i], ticks[i]));
    }
}

/// What is absent stays absent through any run without an insertion of it, also
/// where the cache is full.
pub proof fn law_absent_stays_absent(
    states: Seq<Map<u64, (u8, u64)>>,
    uses: Seq<Use>,
    ticks: Seq<u64>,
    key: u64,
)
    requires
        is_run(states, uses, ticks),
        forall|i: int| 0 <= i < uses.len() ==> spares(#[trigger] uses[i], key),
        answer(states[0], key) is None,
    ensures
        answer(states.last(), key) is None,
    decreases uses.len(),
{
    if uses.len() > 0 {
        let n = uses.len() - 1;
        lemma_run_start(states, uses, ticks);
        assert forall|i: int| 0 <= i < uses.drop_last().len() implies spares(
            #[trigger] uses.drop_last()[i],
            key,
        ) by {
            assert(uses[i] == uses.drop_last()[i]);
        }
        law_absent_stays_absent(
            states.drop_last(),
            uses.drop_last(),
            ticks.drop_last(),
            key,
        );
        assert(states.drop_last().last() == states[n]);
        assert(used(states[n], states[n + 1], uses[n], ticks[n]));
        assert(spares(uses[n], key));
    }
}

/// A lookup changes neither the number of entries nor any answer.
pub proof fn law_lookup_changes_no_answer(
    before: Map<u64, (u8, u64)>,
    after: Map<u64, (u8, u64)>,
    looked_up: u64,
    tick: u64,
    key: u64,
)
    requires
        before.dom().finite(),
        used(before, after, Use::Lookup(looked_up), tick),
    ensures
        after.len() == before.len(),
        answer(after, key) == answer(before, key),
{
}

} // verus!
