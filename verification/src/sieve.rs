//! The incremental sieve itself.

use std::collections::HashMap;
use vstd::prelude::*;
use vstd::arithmetic::div_mod::{
    lemma_fundamental_div_mod, lemma_mod_add_multiples_vanish, lemma_mod_multiples_basic,
    lemma_small_mod, lemma_sub_mod_noop,
};
use vstd::set_lib::lemma_len_subset;
use crate::primality::{
    divides, is_first_prime_from, is_prime, lemma_divides_transitive, lemma_has_prime_factor,
    lemma_prime_square_has_no_smaller_factor, lemma_proper_divisor_halves,
};

verus! {

broadcast use vstd::std_specs::hash::group_hash_axioms;

/// The largest candidate the sieve will examine. Candidates stay within this
/// limit so that every key the composite map can hold fits in a `u64`:
/// bookkeeping for a candidate `n` never goes past `n * n + n`.
pub const CANDIDATE_LIMIT: u64 = 4294967295;

/// A lazy prime sieve.
///
/// `composite` maps a future candidate to the smallest already-found prime
/// that divides it; `cursor` is the next candidate to examine; `upper`, when
/// present, is the inclusive bound on candidates.
pub struct Sieve {
    composite: HashMap<u64, u64>,
    cursor: u64,
    upper: Option<u64>,
}

/// The entry at key `k` is consistent with a sieve whose cursor sits at `c`:
/// its value is a prime below the cursor that divides the key, the key has
/// not been passed yet, and the key is within the sieve's working range.
pub(crate) open spec fn entry_ok(m: Map<u64, u64>, c: int, k: u64) -> bool {
    &&& is_prime(m[k] as int)
    &&& divides(m[k] as int, k as int)
    &&& c <= k as int
    &&& (m[k] as int) < c
    &&& k as int <= c * c + c
}

pub(crate) open spec fn entries_ok(m: Map<u64, u64>, c: int) -> bool {
    forall|k: u64| #[trigger] m.dom().contains(k) ==> entry_ok(m, c, k)
}

/// Some number strictly below `c` is a prime factor of `x`.
pub(crate) open spec fn has_prime_factor_below(x: int, c: int) -> bool {
    exists|q: int| is_prime(q) && q < c && #[trigger] divides(q, x)
}

/// Some stored entry strictly below `x` has a value dividing `x`.
pub(crate) open spec fn blocked_below(m: Map<u64, u64>, x: u64) -> bool {
    exists|k: u64| #[trigger] m.dom().contains(k) && k < x && divides(m[k] as int, x as int)
}

/// Completeness of the schedule: any number at or past the cursor whose
/// smallest prime factor has already been found is either a key of the map
/// or preceded by a key whose value divides it. Applied at the cursor
/// itself, where no key can lie below it, this forces every composite
/// candidate to be a key of the map.
pub(crate) open spec fn covers(m: Map<u64, u64>, c: int) -> bool {
    forall|x: u64|
        c <= x as int && has_prime_factor_below(x as int, c) && !(#[trigger] m.dom().contains(x))
            ==> blocked_below(m, x)
}

impl Sieve {
    /// The next candidate the sieve will examine.
    pub closed spec fn next_candidate(self) -> int {
        self.cursor as int
    }

    /// Whether the sieve was built with an upper bound.
    pub closed spec fn is_bounded(self) -> bool {
        self.upper is Some
    }

    /// The inclusive upper bound of a bounded sieve.
    pub closed spec fn upper_bound(self) -> int {
        self.upper->0 as int
    }

    /// How many entries the composite map holds.
    pub closed spec fn stored(self) -> nat {
        self.composite@.len()
    }

    /// The sieve's invariant.
    pub closed spec fn wf(self) -> bool {
        let m = self.composite@;
        let c = self.cursor as int;
        &&& 2 <= c
        &&& m.dom().finite()
        &&& m.len() + 2 <= c
        &&& entries_ok(m, c)
        &&& covers(m, c)
        &&& (self.upper is Some ==> self.upper->0 <= CANDIDATE_LIMIT)
    }

    /// An unbounded sieve can advance only while a prime within the
    /// candidate limit remains ahead of the cursor; a bounded sieve can
    /// always advance (exhaustion is a normal outcome for it).
    pub open spec fn prime_available(self) -> bool {
        self.is_bounded() || exists|q: int|
            self.next_candidate() <= q <= CANDIDATE_LIMIT && is_prime(q)
    }

    /// The number of composite-map entries currently stored: a diagnostic of
    /// memory pressure, not used by the algorithm itself.
    pub fn size(&self) -> (n: usize)
        ensures
            n == self.stored(),
    {
        self.composite.len()
    }

    /// Produce the next prime, or `None` once a bounded sieve has run past
    /// its upper bound. An unbounded sieve never exhausts; it requires
    /// instead that the prime it is about to produce lies within the
    /// candidate limit, so that no arithmetic can overflow.
    #[verifier::loop_isolation(false)]
    pub fn next(&mut self) -> (r: Option<u64>)
        requires
            old(self).wf(),
            old(self).prime_available(),
        ensures
            final(self).wf(),
            final(self).is_bounded() == old(self).is_bounded(),
            old(self).is_bounded() ==> final(self).upper_bound() == old(self).upper_bound(),
            match r {
                Some(p) => {
                    &&& is_first_prime_from(old(self).next_candidate(), p as int)
                    &&& (old(self).is_bounded() ==> p as int <= old(self).upper_bound())
                    &&& final(self).next_candidate() == p as int + 1
                    &&& final(self).stored() == old(self).stored() + 1
                },
                None => {
                    &&& old(self).is_bounded()
                    &&& (forall|m: int|
                        old(self).next_candidate() <= m <= old(self).upper_bound()
                            ==> !is_prime(m))
                    &&& final(self).next_candidate() == (if old(self).next_candidate()
                        <= old(self).upper_bound() {
                        old(self).upper_bound() + 1
                    } else {
                        old(self).next_candidate()
                    })
                    &&& final(self).stored() == old(self).stored()
                },
            },
    {
        loop
            invariant
                self.wf(),
                self.is_bounded() == old(self).is_bounded(),
                self.is_bounded() ==> self.upper_bound() == old(self).upper_bound(),
                old(self).next_candidate() <= self.next_candidate(),
                forall|m: int|
                    old(self).next_candidate() <= m < self.next_candidate() ==> !is_prime(m),
                self.stored() == old(self).stored(),
                !self.is_bounded() ==> exists|q: int|
                    self.next_candidate() <= q <= CANDIDATE_LIMIT && is_prime(q),
                self.is_bounded() && old(self).next_candidate() <= self.upper_bound()
                    ==> self.next_candidate() <= self.upper_bound() + 1,
                self.is_bounded() && old(self).next_candidate() > self.upper_bound()
                    ==> self.next_candidate() == old(self).next_candidate(),
            decreases (if self.is_bounded() {
                self.upper_bound()
            } else {
                CANDIDATE_LIMIT as int
            }) + 1 - self.next_candidate(),
        {
            match self.upper {
                Some(u) => {
                    if self.cursor > u {
                        return None;
                    }
                },
                None => {},
            }
            proof {
                if self.upper is None {
                    let q = choose|q: int|
                        self.next_candidate() <= q <= CANDIDATE_LIMIT && is_prime(q);
                    assert(self.cursor as int <= CANDIDATE_LIMIT as int);
                }
            }
            let n: u64 = self.cursor;
            let ghost m0: Map<u64, u64> = self.composite@;
            let ghost c0: int = n as int;
            proof {
                assert((c0 + 1) * (c0 + 1) == c0 * c0 + 2 * c0 + 1) by (nonlinear_arith);
            }
            self.cursor = n + 1;
            match self.composite.remove(&n) {
                None => {
                    // No stored witness: `n` is prime. Schedule its square,
                    // the first composite whose smallest factor is `n`.
                    proof {
                        assert(!m0.dom().contains(n));
                        assert(self.composite@ =~= m0);
                        if !is_prime(c0) {
                            lemma_has_prime_factor(c0);
                            let qf = choose|p: int|
                                {
                                    &&& is_prime(p)
                                    &&& #[trigger] divides(p, c0)
                                    &&& 2 <= p <= c0
                                    &&& !is_prime(c0) ==> p < c0
                                };
                            assert(has_prime_factor_below(c0, c0));
                            assert(blocked_below(m0, n));
                            let w = choose|k: u64|
                                #[trigger] m0.dom().contains(k) && k < n && divides(
                                    m0[k] as int,
                                    n as int,
                                );
                            assert(entry_ok(m0, c0, w));
                            assert(false);
                        }
                        assert(c0 * c0 <= CANDIDATE_LIMIT * CANDIDATE_LIMIT) by (nonlinear_arith)
                            requires
                                2 <= c0,
                                c0 <= CANDIDATE_LIMIT,
                        ;
                    }
                    let sq: u64 = n * n;
                    proof {
                        if m0.dom().contains(sq) {
                            assert(entry_ok(m0, c0, sq));
                            lemma_prime_square_has_no_smaller_factor(c0, m0[sq] as int);
                            assert(false);
                        }
                    }
                    self.composite.insert(sq, n);
                    proof {
                        let m2 = self.composite@;
                        let c1 = c0 + 1;
                        assert(m2 == m0.insert(sq, n));
                        assert(m2.len() == m0.len() + 1);
                        lemma_mod_multiples_basic(c0, c0);
                        assert(divides(c0, c0 * c0));
                        assert(c0 + 2 <= c0 * c0) by (nonlinear_arith)
                            requires
                                2 <= c0,
                        ;
                        assert forall|k: u64| #[trigger] m2.dom().contains(k) implies entry_ok(
                            m2,
                            c1,
                            k,
                        ) by {
                            if k == sq {
                                assert(m2[sq] == n);
                            } else {
                                assert(m0.dom().contains(k));
                                assert(entry_ok(m0, c0, k));
                                assert(m2[k] == m0[k]);
                                assert(k != n);
                            }
                        }
                        assert(entries_ok(m2, c1));
                        assert forall|x: u64|
                            c1 <= x as int && has_prime_factor_below(x as int, c1) && !(
                            #[trigger] m2.dom().contains(x)) implies blocked_below(m2, x) by {
                            assert(!m0.dom().contains(x));
                            if has_prime_factor_below(x as int, c0) {
                                assert(blocked_below(m0, x));
                                let w = choose|k: u64|
                                    #[trigger] m0.dom().contains(k) && k < x && divides(
                                        m0[k] as int,
                                        x as int,
                                    );
                                assert(m2.dom().contains(w) && m2[w] == m0[w]);
                                assert(blocked_below(m2, x));
                            } else {
                                let q = choose|q: int|
                                    is_prime(q) && q < c1 && #[trigger] divides(q, x as int);
                                assert(q == c0);
                                let y = x as int / c0;
                                lemma_fundamental_div_mod(x as int, c0);
                                assert(x as int == c0 * y);
                                assert(2 <= y) by (nonlinear_arith)
                                    requires
                                        x as int == c0 * y,
                                        x as int >= c0 + 1,
                                        2 <= c0,
                                ;
                                lemma_mod_multiples_basic(c0, y);
                                assert(divides(y, x as int));
                                lemma_has_prime_factor(y);
                                let qp = choose|p: int|
                                    {
                                        &&& is_prime(p)
                                        &&& #[trigger] divides(p, y)
                                        &&& 2 <= p <= y
                                        &&& !is_prime(y) ==> p < y
                                    };
                                lemma_divides_transitive(qp, y, x as int);
                                if qp < c0 {
                                    assert(has_prime_factor_below(x as int, c0));
                                    assert(false);
                                }
                                assert(c0 <= qp <= y);
                                assert(x as int >= c0 * c0) by (nonlinear_arith)
                                    requires
                                        x as int == c0 * y,
                                        y >= c0,
                                        2 <= c0,
                                ;
                                if x as int == c0 * c0 {
                                    assert(x == sq);
                                    assert(false);
                                } else {
                                    assert(m2.dom().contains(sq) && (sq as int) < x as int
                                        && divides(m2[sq] as int, x as int));
                                    assert(blocked_below(m2, x));
                                }
                            }
                        }
                        assert(covers(m2, c1));
                        assert(self.wf());
                    }
                    return Some(n);
                },
                Some(p) => {
                    // `n` is composite, witnessed by `p`. Advance `p` to its
                    // next multiple that no other prime has claimed.
                    let ghost m1: Map<u64, u64> = self.composite@;
                    proof {
                        assert(m1 == m0.remove(n));
                        assert(m0.dom().contains(n) && m0[n] == p);
                        assert(entry_ok(m0, c0, n));
                        lemma_proper_divisor_halves(p as int, n as int);
                        assert(m1.len() == m0.len() - 1);
                        lemma_mod_add_multiples_vanish(n as int, p as int);
                        assert(divides(p as int, n as int + p as int));
                    }
                    let mut key: u64 = n + p;
                    let ghost mut passed: Set<u64> = Set::empty();
                    proof {
                        assert(Set::<u64>::empty().len() == 0);
                        assert(key as int == c0 + (passed.len() as int + 1) * (p as int)) by (
                        nonlinear_arith)
                            requires
                                passed.len() == 0,
                                key as int == c0 + p as int,
                        ;
                        assert forall|x: u64|
                            n < x && x < key && divides(p as int, x as int) implies passed
                            .contains(x) by {
                            lemma_sub_mod_noop(x as int, n as int, p as int);
                            lemma_small_mod(0nat, p as nat);
                            assert((x as int - n as int) % (p as int) == 0);
                            lemma_small_mod((x as int - n as int) as nat, p as nat);
                            assert(false);
                        }
                    }
                    while self.composite.contains_key(&key)
                        invariant
                            divides(p as int, key as int),
                            n < key,
                            key as int == c0 + (passed.len() as int + 1) * (p as int),
                            passed.subset_of(m1.dom()),
                            passed.finite(),
                            forall|t: u64| #[trigger] passed.contains(t) ==> n < t && t < key,
                            forall|x: u64|
                                n < x && x < key && divides(p as int, x as int)
                                    ==> passed.contains(x),
                        decreases m1.dom().difference(passed).len(),
                    {
                        let ghost kprev: u64 = key;
                        proof {
                            assert(m1.dom().contains(key));
                            assert(m0.dom().contains(key));
                            assert(entry_ok(m0, c0, key));
                            assert(key as int + p as int <= 0xFFFF_FFFF_FFFF_FFFF) by (
                            nonlinear_arith)
                                requires
                                    key as int <= c0 * c0 + c0,
                                    (p as int) < c0,
                                    2 <= c0,
                                    c0 <= 4294967295,
                            ;
                        }
                        key = key + p;
                        proof {
                            let oldlen: int = passed.len() as int;
                            lemma_mod_add_multiples_vanish(kprev as int, p as int);
                            assert(divides(p as int, key as int));
                            assert(!passed.contains(kprev));
                            let passed2 = passed.insert(kprev);
                            assert(passed2.len() as int == oldlen + 1);
                            assert(key as int == c0 + (passed2.len() as int + 1) * (p as int))
                                by (nonlinear_arith)
                                requires
                                    key as int == kprev as int + p as int,
                                    kprev as int == c0 + (oldlen + 1) * (p as int),
                                    passed2.len() as int == oldlen + 1,
                            ;
                            assert(m1.dom().difference(passed2) =~= m1.dom().difference(
                                passed,
                            ).remove(kprev));
                            assert(m1.dom().difference(passed).contains(kprev));
                            passed = passed2;
                            assert forall|x: u64|
                                n < x && x < key && divides(p as int, x as int) implies passed
                                .contains(x) by {
                                if x < kprev {
                                    assert(passed.contains(x));
                                } else if x != kprev {
                                    lemma_sub_mod_noop(x as int, kprev as int, p as int);
                                    lemma_small_mod(0nat, p as nat);
                                    assert((x as int - kprev as int) % (p as int) == 0);
                                    lemma_small_mod(
                                        (x as int - kprev as int) as nat,
                                        p as nat,
                                    );
                                    assert(false);
                                }
                            }
                        }
                    }
                    proof {
                        assert(!m1.dom().contains(key));
                        lemma_len_subset(passed, m1.dom());
                        assert(passed.len() <= m1.len());
                        assert(key as int <= c0 * c0) by (nonlinear_arith)
                            requires
                                key as int == c0 + (passed.len() as int + 1) * (p as int),
                                passed.len() as int <= c0 - 3,
                                2 <= p as int,
                                2 * (p as int) <= c0,
                        ;
                    }
                    self.composite.insert(key, p);
                    proof {
                        let m2 = self.composite@;
                        let c1 = c0 + 1;
                        assert(m2 == m1.insert(key, p));
                        assert(m2.len() == m0.len());
                        assert(!is_prime(c0)) by {
                            assert(divides(p as int, c0) && 2 <= p as int && (p as int) < c0);
                        }
                        assert forall|k: u64| #[trigger] m2.dom().contains(k) implies entry_ok(
                            m2,
                            c1,
                            k,
                        ) by {
                            if k == key {
                                assert(m2[key] == p);
                            } else {
                                assert(m1.dom().contains(k));
                                assert(m0.dom().contains(k));
                                assert(entry_ok(m0, c0, k));
                                assert(m2[k] == m0[k]);
                                assert(k != n);
                            }
                        }
                        assert(entries_ok(m2, c1));
                        assert forall|x: u64|
                            c1 <= x as int && has_prime_factor_below(x as int, c1) && !(
                            #[trigger] m2.dom().contains(x)) implies blocked_below(m2, x) by {
                            assert(x != key);
                            assert(!m1.dom().contains(x));
                            assert(!m0.dom().contains(x));
                            let q = choose|q: int|
                                is_prime(q) && q < c1 && #[trigger] divides(q, x as int);
                            assert(q != c0);
                            assert(has_prime_factor_below(x as int, c0));
                            assert(blocked_below(m0, x));
                            let w = choose|k: u64|
                                #[trigger] m0.dom().contains(k) && k < x && divides(
                                    m0[k] as int,
                                    x as int,
                                );
                            if w == n {
                                assert(divides(p as int, x as int));
                                if x < key {
                                    assert(passed.contains(x));
                                    assert(false);
                                } else {
                                    assert(m2.dom().contains(key) && key < x && divides(
                                        m2[key] as int,
                                        x as int,
                                    ));
                                    assert(blocked_below(m2, x));
                                }
                            } else {
                                assert(m1.dom().contains(w));
                                assert(w != key);
                                assert(m2.dom().contains(w) && m2[w] == m0[w]);
                                assert(blocked_below(m2, x));
                            }
                        }
                        assert(covers(m2, c1));
                        assert(self.wf());
                        if !self.is_bounded() {
                            let q = choose|q: int| c0 <= q <= CANDIDATE_LIMIT && is_prime(q);
                            assert(q != c0);
                            assert(exists|q2: int|
                                self.next_candidate() <= q2 <= CANDIDATE_LIMIT && is_prime(q2));
                        }
                    }
                },
            }
        }
    }
}

/// A sieve over all integers from 2 up, with no upper limit.
pub fn infinite() -> (s: Sieve)
    ensures
        s.wf(),
        !s.is_bounded(),
        s.next_candidate() == 2,
        s.stored() == 0,
{
    let s = Sieve { composite: HashMap::new(), cursor: 2, upper: None };
    proof {
        assert forall|x: u64|
            2 <= x as int && has_prime_factor_below(x as int, 2) && !(#[trigger] s.composite@
                .dom()
                .contains(x)) implies blocked_below(s.composite@, x) by {
            let q = choose|q: int| is_prime(q) && q < 2 && #[trigger] divides(q, x as int);
            assert(2 <= q);
        }
    }
    s
}

/// A sieve over the integers from 2 through `upper`, inclusive. An upper
/// bound below 2 yields a sieve that is exhausted from the start.
pub fn bounded(upper: u64) -> (s: Sieve)
    requires
        upper <= CANDIDATE_LIMIT,
    ensures
        s.wf(),
        s.is_bounded(),
        s.upper_bound() == upper,
        s.next_candidate() == 2,
        s.stored() == 0,
{
    let s = Sieve { composite: HashMap::new(), cursor: 2, upper: Some(upper) };
    proof {
        assert forall|x: u64|
            2 <= x as int && has_prime_factor_below(x as int, 2) && !(#[trigger] s.composite@
                .dom()
                .contains(x)) implies blocked_below(s.composite@, x) by {
            let q = choose|q: int| is_prime(q) && q < 2 && #[trigger] divides(q, x as int);
            assert(2 <= q);
        }
    }
    s
}

} // verus!
