//! Behaviour of a whole run of the sieve, stated over the sequence of
//! produced values.

use vstd::prelude::*;
use crate::primality::{is_first_prime_from, is_prime};

verus! {

/// The cursor in force when the value at position `i` of a run is produced:
/// 2 at the start, one past the previous value afterwards.
pub open spec fn run_start(s: Seq<int>, i: int) -> int
    recommends
        0 <= i <= s.len(),
{
    if i == 0 {
        2
    } else {
        s[i - 1] + 1
    }
}

/// `s` is a possible sequence of produced values: each is the least prime at
/// or above the cursor left behind by its predecessor, which is exactly what
/// each successful call of [`Sieve::next`](crate::Sieve::next) ensures.
pub open spec fn is_sieve_run(s: Seq<int>) -> bool {
    forall|i: int| 0 <= i < s.len() ==> is_first_prime_from(run_start(s, i), #[trigger] s[i])
}

/// A run grows by one produced value: what a successful `next` call ensures
/// for its result is exactly the condition a run demands at the new
/// position.
pub proof fn lemma_run_push(s: Seq<int>, p: int)
    requires
        is_sieve_run(s),
        is_first_prime_from(run_start(s, s.len() as int), p),
    ensures
        is_sieve_run(s.push(p)),
{
    let s2 = s.push(p);
    assert forall|i: int| 0 <= i < s2.len() implies is_first_prime_from(
        run_start(s2, i),
        #[trigger] s2[i],
    ) by {
        if i < s.len() {
            assert(s2[i] == s[i]);
            if i > 0 {
                assert(s2[i - 1] == s[i - 1]);
            }
            assert(is_first_prime_from(run_start(s, i), s[i]));
        } else {
            assert(s2[i] == p);
            if i > 0 {
                assert(s2[i - 1] == s[i - 1]);
            }
        }
    }
}

/// Values of a run grow strictly: nothing is repeated or emitted out of
/// order.
pub proof fn lemma_run_increasing(s: Seq<int>, i: int, j: int)
    requires
        is_sieve_run(s),
        0 <= i < j < s.len(),
    ensures
        s[i] < s[j],
    decreases j - i,
{
    assert(is_first_prime_from(run_start(s, j), s[j]));
    if j == i + 1 {
        assert(s[j] >= s[i] + 1);
    } else {
        lemma_run_increasing(s, i, j - 1);
        assert(s[j] >= s[j - 1] + 1);
    }
}

/// No prime is skipped: a prime no larger than the value at position `i`
/// already occurs at or before position `i`.
pub proof fn lemma_run_contains_prime(s: Seq<int>, i: int, q: int)
    requires
        is_sieve_run(s),
        0 <= i < s.len(),
        is_prime(q),
        q <= s[i],
    ensures
        exists|j: int| 0 <= j <= i && s[j] == q,
    decreases i,
{
    assert(is_first_prime_from(run_start(s, i), s[i]));
    if q >= run_start(s, i) {
        if q < s[i] {
            assert(!is_prime(q));
        }
        assert(s[i] == q);
    } else {
        assert(i > 0);
        assert(q <= s[i - 1]);
        lemma_run_contains_prime(s, i - 1, q);
        let j = choose|j: int| 0 <= j <= i - 1 && s[j] == q;
        assert(0 <= j <= i && s[j] == q);
    }
}

/// The values of a run are primes in strictly increasing order, with none
/// skipped: every prime up to any produced value occurs in the run no later
/// than that value. In particular the first `k` values of an unbounded run
/// are the first `k` primes.
pub proof fn lemma_run_lists_primes_in_order(s: Seq<int>)
    requires
        is_sieve_run(s),
    ensures
        forall|i: int| 0 <= i < s.len() ==> is_prime(#[trigger] s[i]),
        forall|i: int, j: int| 0 <= i < j < s.len() ==> s[i] < s[j],
        forall|i: int, q: int|
            0 <= i < s.len() && is_prime(q) && q <= s[i] ==> exists|j: int|
                0 <= j <= i && s[j] == q,
{
    assert forall|i: int| 0 <= i < s.len() implies is_prime(#[trigger] s[i]) by {
        assert(is_first_prime_from(run_start(s, i), s[i]));
    }
    assert forall|i: int, j: int| 0 <= i < j < s.len() implies s[i] < s[j] by {
        lemma_run_increasing(s, i, j);
    }
    assert forall|i: int, q: int|
        0 <= i < s.len() && is_prime(q) && q <= s[i] implies exists|j: int|
        0 <= j <= i && s[j] == q by {
        lemma_run_contains_prime(s, i, q);
    }
}

/// A bounded run that has exhausted its candidates holds exactly the primes
/// up to the bound, in strictly increasing order.
pub proof fn lemma_bounded_run_exact(s: Seq<int>, u: int)
    requires
        is_sieve_run(s),
        forall|i: int| 0 <= i < s.len() ==> #[trigger] s[i] <= u,
        forall|m: int| run_start(s, s.len() as int) <= m <= u ==> !is_prime(m),
    ensures
        forall|i: int| 0 <= i < s.len() ==> is_prime(#[trigger] s[i]) && s[i] <= u,
        forall|i: int, j: int| 0 <= i < j < s.len() ==> s[i] < s[j],
        forall|q: int| is_prime(q) && q <= u ==> s.contains(q),
{
    lemma_run_lists_primes_in_order(s);
    assert forall|q: int| is_prime(q) && q <= u implies s.contains(q) by {
        let n = s.len() as int;
        if n == 0 {
            assert(run_start(s, 0) == 2);
            assert(!is_prime(q));
            assert(false);
        } else if q <= s[n - 1] {
            lemma_run_contains_prime(s, n - 1, q);
            let j = choose|j: int| 0 <= j <= n - 1 && s[j] == q;
            assert(s.contains(q));
        } else {
            assert(q >= run_start(s, n));
            assert(!is_prime(q));
            assert(false);
        }
    }
}

} // verus!
