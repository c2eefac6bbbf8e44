//! Divisibility and primality, with the arithmetic lemmas the sieve's
//! invariant rests on.

use vstd::prelude::*;
use vstd::arithmetic::div_mod::{
    lemma_fundamental_div_mod, lemma_mod_division_less_than_divisor, lemma_mod_multiples_basic,
    lemma_mod_self_0, lemma_mul_mod_noop, lemma_small_mod,
};

verus! {

/// `d` divides `n` evenly.
pub open spec fn divides(d: int, n: int) -> bool {
    n % d == 0
}

/// `n` is a prime number: at least 2, with no divisor strictly between 1 and `n`.
pub open spec fn is_prime(n: int) -> bool {
    &&& 2 <= n
    &&& forall|d: int| 2 <= d < n ==> !(#[trigger] divides(d, n))
}

/// `p` is the least prime at or above `c`.
pub open spec fn is_first_prime_from(c: int, p: int) -> bool {
    &&& is_prime(p)
    &&& c <= p
    &&& forall|m: int| c <= m < p ==> !is_prime(m)
}

/// Divisibility is transitive.
pub proof fn lemma_divides_transitive(a: int, b: int, c: int)
    requires
        1 <= a,
        1 <= b,
        divides(a, b),
        divides(b, c),
    ensures
        divides(a, c),
{
    let k1 = b / a;
    let k2 = c / b;
    lemma_fundamental_div_mod(b, a);
    lemma_fundamental_div_mod(c, b);
    assert(c == (k1 * k2) * a) by (nonlinear_arith)
        requires
            b == a * k1 + 0,
            c == b * k2 + 0,
    ;
    lemma_mod_multiples_basic(k1 * k2, a);
}

/// Every number at least 2 has a prime factor; a composite number has one
/// strictly below itself.
pub proof fn lemma_has_prime_factor(n: int)
    requires
        2 <= n,
    ensures
        exists|p: int|
            {
                &&& is_prime(p)
                &&& #[trigger] divides(p, n)
                &&& 2 <= p <= n
                &&& !is_prime(n) ==> p < n
            },
    decreases n,
{
    if is_prime(n) {
        lemma_mod_self_0(n);
        assert(divides(n, n));
    } else {
        let d = choose|d: int| 2 <= d < n && #[trigger] divides(d, n);
        assert(2 <= d < n && divides(d, n));
        lemma_has_prime_factor(d);
        let p = choose|p: int|
            {
                &&& is_prime(p)
                &&& #[trigger] divides(p, d)
                &&& 2 <= p <= d
                &&& !is_prime(d) ==> p < d
            };
        lemma_divides_transitive(p, d, n);
        assert(divides(p, n));
    }
}

/// A prime `q` cannot divide a product of two positive factors that are both
/// strictly below `q`.
pub proof fn lemma_prime_free_of_small_products(q: int, a: int, b: int)
    requires
        is_prime(q),
        1 <= a < q,
        1 <= b < q,
    ensures
        !divides(q, a * b),
    decreases a,
{
    if divides(q, a * b) {
        if a == 1 {
            assert(a * b == b);
            lemma_small_mod(b as nat, q as nat);
            assert(b % q == b);
        } else {
            let r = q % a;
            lemma_fundamental_div_mod(q, a);
            lemma_mod_division_less_than_divisor(q, a);
            assert(0 <= r < a);
            if r == 0 {
                assert(divides(a, q));
                assert(!divides(a, q)) by {
                    assert(2 <= a < q);
                }
            } else {
                // r * b is a multiple of q as well, and r < a: descend.
                let m = (a * b) / q;
                lemma_fundamental_div_mod(a * b, q);
                assert(r * b == (b - (q / a) * m) * q) by (nonlinear_arith)
                    requires
                        q == a * (q / a) + r,
                        a * b == q * m + 0,
                ;
                lemma_mod_multiples_basic(b - (q / a) * m, q);
                assert(divides(q, r * b));
                lemma_prime_free_of_small_products(q, r, b);
            }
        }
    }
}

/// A proper divisor of `c` that is at least 2 fits into `c` at least twice.
pub proof fn lemma_proper_divisor_halves(p: int, c: int)
    requires
        2 <= p,
        p < c,
        divides(p, c),
    ensures
        2 * p <= c,
{
    let k = c / p;
    lemma_fundamental_div_mod(c, p);
    assert(c == p * k);
    assert(k >= 2) by (nonlinear_arith)
        requires
            c == p * k,
            2 <= p,
            p < c,
    ;
    assert(2 * p <= c) by (nonlinear_arith)
        requires
            c == p * k,
            2 <= p,
            2 <= k,
    ;
}

/// No prime strictly below a prime `n` divides `n * n`.
pub proof fn lemma_prime_square_has_no_smaller_factor(n: int, q: int)
    requires
        is_prime(n),
        is_prime(q),
        q < n,
    ensures
        !divides(q, n * n),
{
    let r = n % q;
    assert(!divides(q, n));
    lemma_mod_division_less_than_divisor(n, q);
    assert(1 <= r < q);
    lemma_mul_mod_noop(n, n, q);
    assert((n * n) % q == (r * r) % q);
    lemma_prime_free_of_small_products(q, r, r);
}

} // verus!
