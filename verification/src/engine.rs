//! The scoring of a transaction: the fast path first, then the index.

use crate::dataset::Dataset;
use crate::distance::DIMS;
use crate::fastpath::{fast_class, fast_path, FastResult};
use crate::http::FraudResult;
use crate::ivf::{IVFIndex, IVF_NPROBE_EASY, IVF_NPROBE_REPAIR};
use std::sync::Arc;
use vstd::arithmetic::div_mod::{lemma_add_mod_noop, lemma_mul_mod_noop_left};
use vstd::prelude::*;

verus! {

/// Number of neighbours that vote on a transaction.
pub const NEIGHBORS: usize = 5;

/// What requests are scored against.
pub struct AppState {
    pub dataset: Arc<Dataset>,
    pub ivf: Arc<IVFIndex>,
}

impl AppState {
    /// Whether the index can be searched.
    pub open spec fn wf(&self) -> bool {
        self.dataset.wf() && self.ivf.wf()
    }
}

/// The number of frauds that a transaction is scored with: none or all for a
/// clear case, else those among the nearest neighbours.
pub open spec fn fraud_count(v: Seq<u32>, query: Seq<i16>, state: &AppState) -> int {
    match fast_class(v) {
        FastResult::Legit => 0,
        FastResult::Fraud => NEIGHBORS as int,
        FastResult::Borderline => state.ivf.vote(
            &*state.dataset,
            query,
            NEIGHBORS as nat,
            IVF_NPROBE_EASY as nat,
        ) as int,
    }
}

/// Scores a transaction, given by its features and by the same in quantized
/// form.
pub fn process(v: &[u32; DIMS], query: &[i16; DIMS], state: &AppState) -> (r: FraudResult)
    requires
        fast_class(v@) is Borderline ==> state.wf(),
    ensures
        r == FraudResult::Score(fraud_count(v@, query@, state) as usize),
        0 <= fraud_count(v@, query@, state) <= NEIGHBORS,
{
    match fast_path(v) {
        FastResult::Legit => FraudResult::Score(0),
        FastResult::Fraud => FraudResult::Score(NEIGHBORS),
        FastResult::Borderline => FraudResult::Score(
            state.ivf.search(&state.dataset, query, NEIGHBORS, IVF_NPROBE_EASY),
        ),
    }
}

/// Number of queries that warm up the caches.
pub const WARM_QUERIES: u32 = 1024;

/// An integer reduced to a signed 16-bit value.
pub open spec fn signed16(x: int) -> int {
    if x % 0x1_0000 >= 0x8000 {
        x % 0x1_0000 - 0x1_0000
    } else {
        x % 0x1_0000
    }
}

/// The component `d` of warm-up query `i`.
pub open spec fn warm_component(i: int, d: int) -> int {
    signed16(13 * (i * 2_654_435_761 + 37 * d))
}

/// A pseudo-random query that touches other memory than its neighbours.
pub fn warm_query(i: u32) -> (q: [i16; DIMS])
    ensures
        forall|d: int| 0 <= d < DIMS ==> #[trigger] q@[d] == warm_component(i as int, d),
{
    let stride: u64 = (i as u64 * 2_654_435_761) % 0x1_0000;
    let mut q: [i16; DIMS] = [0; DIMS];
    let mut d: usize = 0;
    while d < DIMS
        invariant
            d <= DIMS,
            stride == (i * 2_654_435_761) % 0x1_0000,
            forall|e: int| 0 <= e < d ==> #[trigger] q@[e] == warm_component(i as int, e),
        decreases DIMS - d,
    {
        let u: u64 = (13 * (stride + 37 * d as u64)) % 0x1_0000;
        proof {
            let a = i * 2_654_435_761;
            let b = 37 * d as int;
            let m = 0x1_0000;
            lemma_add_mod_noop(a, b, m);
            lemma_add_mod_noop(a % m, b, m);
            lemma_mul_mod_noop_left(a + b, 13, m);
            lemma_mul_mod_noop_left(stride + b, 13, m);
            assert(u == (13 * (a + b)) % m);
        }
        q[d] = if u >= 0x8000 {
            (u as i64 - 0x1_0000) as i16
        } else {
            u as i16
        };
        d = d + 1;
    }
    q
}

/// How many cells warm-up query `i` probes: every sixteenth takes the long way.
pub fn warm_nprobe(i: u32) -> (r: usize)
    ensures
        r == if i % 16 == 0 {
            IVF_NPROBE_REPAIR
        } else {
            IVF_NPROBE_EASY
        },
{
    if i % 16 == 0 {
        IVF_NPROBE_REPAIR
    } else {
        IVF_NPROBE_EASY
    }
}

} // verus!
