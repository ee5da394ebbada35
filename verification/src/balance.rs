//! Round-robin distribution of connections over the backends.

use vstd::arithmetic::div_mod::{lemma_fundamental_div_mod, lemma_fundamental_div_mod_converse};
use vstd::prelude::*;

verus! {

/// Picks one of `n` backends for the connection with the given ticket.
pub fn pick_backend(ticket: usize, n: usize) -> (r: usize)
    requires
        n > 0,
    ensures
        r == ticket as int % n as int,
        r < n,
{
    ticket % n
}

/// How many tickets after `ticket` it is until backend `b` has its turn.
pub open spec fn wait(ticket: int, n: int, b: int) -> int {
    if b >= ticket % n {
        b - ticket % n
    } else {
        b - ticket % n + n
    }
}

/// Of any `n` tickets in a row, each backend gets exactly one.
pub proof fn law_round_robin_is_fair(ticket: int, n: int, b: int)
    requires
        0 <= ticket,
        0 <= b < n,
    ensures
        0 <= wait(ticket, n, b) < n,
        (ticket + wait(ticket, n, b)) % n == b,
        forall|j: int| 0 <= j < n && #[trigger] ((ticket + j) % n) == b ==> j == wait(
            ticket,
            n,
            b,
        ),
{
    let q = ticket / n;
    let r = ticket % n;
    lemma_fundamental_div_mod(ticket, n);
    assert(q * n == n * q) by (nonlinear_arith);
    assert((q + 1) * n == n * q + n) by (nonlinear_arith);
    assert forall|j: int| 0 <= j < n implies #[trigger] ((ticket + j) % n) == (if r + j < n {
        r + j
    } else {
        r + j - n
    }) by {
        if r + j < n {
            lemma_fundamental_div_mod_converse(ticket + j, n, q, r + j);
        } else {
            lemma_fundamental_div_mod_converse(ticket + j, n, q + 1, r + j - n);
        }
    }
    assert((ticket + wait(ticket, n, b)) % n == b);
}

} // verus!
