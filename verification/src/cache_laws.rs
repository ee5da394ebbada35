//! What the cache forgets, and which queries it tells apart.

use crate::cache::{answer, extended, hash_over, next_tick, query_hash, used, Use};
use vstd::arithmetic::div_mod::{lemma_mul_mod_noop_left, lemma_mul_mod_noop_right, lemma_small_mod};
use vstd::prelude::*;

verus! {

/// Below its capacity of 1024 entries a cache forgets nothing; a full one
/// forgets one entry for each that is inserted, and no entry was used before
/// that one.
pub proof fn law_oldest_is_forgotten(
    before: Map<u64, (u8, u64)>,
    after: Map<u64, (u8, u64)>,
    key: u64,
    value: u8,
    tick: u64,
    lost: u64,
)
    requires
        used(before, after, Use::Insert(key, value), tick),
    ensures
        before.len() < 1024 && before.contains_key(lost) ==> after.contains_key(lost),
        before.contains_key(lost) && !after.contains_key(lost) ==> before.len() >= 1024 && forall|
            k: u64,
        | #[trigger]
            before.contains_key(k) ==> before[lost].1 <= before[k].1,
        before.len() >= 1024 && !before.contains_key(key) ==> exists|k: u64|
            #[trigger] before.contains_key(k) && !after.contains_key(k),
        answer(after, key) == Some(value),
        after[key].1 == tick,
        forall|k: u64|
            k != key && #[trigger] after.contains_key(k) ==> before.contains_key(k) && after[k]
                == before[k],
{
    if before.len() >= 1024 {
        let old_key = choose|old_key: u64|
            #[trigger] crate::cache::is_oldest(before, old_key) && after == before.remove(
                old_key,
            ).insert(key, (value, tick));
        assert(before.contains_key(old_key));
    }
}

/// A lookup answers with what was inserted last and renews the entry; where
/// there is none it changes nothing.
pub proof fn law_lookup_renews(
    before: Map<u64, (u8, u64)>,
    after: Map<u64, (u8, u64)>,
    key: u64,
    tick: u64,
)
    requires
        used(before, after, Use::Lookup(key), tick),
    ensures
        answer(before, key) is Some <==> before.contains_key(key),
        before.contains_key(key) ==> answer(before, key) == Some(before[key].0),
        before.contains_key(key) ==> after[key] == (before[key].0, tick),
        after.dom() == before.dom(),
        forall|k: u64|
            k != key && #[trigger] before.contains_key(k) ==> after[k] == before[k],
{
    assert(after.dom() =~= before.dom());
}

/// The clock of a cache ticks with every use.
pub proof fn law_clock_ticks(tick: u64)
    ensures
        tick < u64::MAX ==> next_tick(tick) == tick + 1,
        next_tick(u64::MAX) == 0,
{
}

/// What the factor of the hash has to be multiplied with to give one.
spec fn inverse() -> int {
    0xce96_5057_aff6_957b
}

/// The product with the factor of the hash can be undone by another one.
proof fn lemma_undo_factor(a: u64)
    ensures
        (((a * 0x100_0000_01b3) % 0x1_0000_0000_0000_0000) * inverse()) % 0x1_0000_0000_0000_0000
            == a,
{
    let f: int = 0x100_0000_01b3;
    let m: int = 0x1_0000_0000_0000_0000;
    let g: int = inverse();
    lemma_mul_mod_noop_left(a * f, g, m);
    assert((a * f) * g == a * (f * g)) by (nonlinear_arith);
    lemma_mul_mod_noop_right(a as int, f * g, m);
    assert(f * g == 887_285_111_055 * m + 1);
    assert((f * g) % m == 1);
    lemma_small_mod(a as nat, m as nat);
}

/// A query is hashed component by component, in two's complement: the hash
/// before is combined with the component by exclusive or, and multiplied.
pub proof fn law_hash_step(q: Seq<i16>, n: nat)
    ensures
        hash_over(q, 0) == 0xcbf2_9ce4_8422_2325,
        q[n as int] >= 0 ==> hash_over(q, n + 1) == ((hash_over(q, n) ^ (q[n as int] as u64))
            * 0x100_0000_01b3) % 0x1_0000_0000_0000_0000,
        q[n as int] < 0 ==> hash_over(q, n + 1) == ((hash_over(q, n) ^ ((q[n as int]
            + 0x1_0000_0000_0000_0000) as u64)) * 0x100_0000_01b3) % 0x1_0000_0000_0000_0000,
        query_hash(q) == hash_over(q, 14),
{
}

/// A step of the hash tells both the hash before and the component apart.
proof fn lemma_step_is_injective(g: u64, h: u64, x: u64, y: u64)
    requires
        ((g ^ x) * 0x100_0000_01b3) % 0x1_0000_0000_0000_0000 == ((h ^ y) * 0x100_0000_01b3)
            % 0x1_0000_0000_0000_0000,
        g == h || x == y,
    ensures
        g == h,
        x == y,
{
    lemma_undo_factor(g ^ x);
    lemma_undo_factor(h ^ y);
    assert(g ^ x == h ^ y);
    assert((g ^ x == h ^ y && (g == h || x == y)) ==> (g == h && x == y)) by (bit_vector);
}

proof fn lemma_hashes_differ(a: Seq<i16>, b: Seq<i16>, d: int, n: nat)
    requires
        0 <= d,
        forall|i: int| 0 <= i < n && i != d ==> a[i] == b[i],
        d < n ==> a[d] != b[d],
    ensures
        d < n ==> hash_over(a, n) != hash_over(b, n),
        d >= n ==> hash_over(a, n) == hash_over(b, n),
    decreases n,
{
    if n > 0 {
        let m = (n - 1) as nat;
        lemma_hashes_differ(a, b, d, m);
        let g = hash_over(a, m);
        let h = hash_over(b, m);
        let x = extended(a[n - 1]);
        let y = extended(b[n - 1]);
        if hash_over(a, n) == hash_over(b, n) && d < n {
            if d == n - 1 {
                assert(g == h);
                lemma_step_is_injective(g, h, x, y);
                assert(a[d] == b[d]);
            } else {
                assert(a[n - 1] == b[n - 1]);
                lemma_step_is_injective(g, h, x, y);
            }
        }
    }
}

/// Two queries that differ in one component have different hashes, whichever
/// component it is.
pub proof fn law_hash_heeds_every_component(q: Seq<i16>, d: int, x: i16)
    requires
        q.len() == 14,
        0 <= d < 14,
        q[d] != x,
    ensures
        query_hash(q) != query_hash(q.update(d, x)),
{
    lemma_hashes_differ(q, q.update(d, x), d, 14);
}

} // verus!
