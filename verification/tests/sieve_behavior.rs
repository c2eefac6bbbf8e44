use sieve::{bounded, infinite, Sieve};

/// Draw `k` primes from the sieve, panicking if it exhausts first.
fn take_n(s: &mut Sieve, k: usize) -> Vec<u64> {
    let mut out: Vec<u64> = Vec::new();
    while out.len() < k {
        out.push(s.next().expect("sieve exhausted early"));
    }
    out
}

/// Drain a bounded sieve completely.
fn drain(s: &mut Sieve) -> Vec<u64> {
    let mut out: Vec<u64> = Vec::new();
    while let Some(p) = s.next() {
        out.push(p);
    }
    out
}

#[test]
fn it_works() {
    let mut sieve = infinite();
    let primes = take_n(&mut sieve, 100);

    assert_eq!(
        primes,
        vec![
            2, 3, 5, 7, 11, 13, 17, 19, 23, 29, 31, 37, 41, 43, 47, 53, 59, 61, 67, 71, 73, 79,
            83, 89, 97, 101, 103, 107, 109, 113, 127, 131, 137, 139, 149, 151, 157, 163, 167,
            173, 179, 181, 191, 193, 197, 199, 211, 223, 227, 229, 233, 239, 241, 251, 257, 263,
            269, 271, 277, 281, 283, 293, 307, 311, 313, 317, 331, 337, 347, 349, 353, 359, 367,
            373, 379, 383, 389, 397, 401, 409, 419, 421, 431, 433, 439, 443, 449, 457, 461, 463,
            467, 479, 487, 491, 499, 503, 509, 521, 523, 541,
        ]
    );
}

#[test]
fn first_few_primes() {
    let mut sieve = infinite();
    assert_eq!(take_n(&mut sieve, 5), vec![2, 3, 5, 7, 11]);
}

#[test]
fn bounded_one_hundred_is_exactly_the_25_primes() {
    let mut sieve = bounded(100);
    let primes = drain(&mut sieve);
    assert_eq!(
        primes,
        vec![2, 3, 5, 7, 11, 13, 17, 19, 23, 29, 31, 37, 41, 43, 47, 53, 59, 61, 67, 71, 73, 79,
            83, 89, 97]
    );
    // exhaustion is stable
    assert_eq!(sieve.next(), None);
    assert_eq!(sieve.next(), None);
}

#[test]
fn bounded_below_two_yields_nothing() {
    let mut empty_one = bounded(1);
    assert_eq!(empty_one.next(), None);
    assert_eq!(empty_one.size(), 0);

    let mut empty_zero = bounded(0);
    assert_eq!(empty_zero.next(), None);
    assert_eq!(empty_zero.next(), None);
    assert_eq!(empty_zero.size(), 0);
}

#[test]
fn bound_is_inclusive() {
    // the bound itself is produced when prime, and one below it drops it
    let mut at = bounded(97);
    assert_eq!(drain(&mut at).last(), Some(&97));
    let mut below = bounded(96);
    assert_eq!(drain(&mut below).last(), Some(&89));

    let mut two = bounded(2);
    assert_eq!(drain(&mut two), vec![2]);
}

#[test]
fn size_is_idempotent() {
    let mut sieve = infinite();
    assert_eq!(sieve.size(), sieve.size());
    take_n(&mut sieve, 7);
    let a = sieve.size();
    let b = sieve.size();
    assert_eq!(a, b);
}

#[test]
fn size_counts_one_entry_per_prime() {
    let mut sieve = infinite();
    assert_eq!(sieve.size(), 0);
    take_n(&mut sieve, 20);
    assert_eq!(sieve.size(), 20);
}

#[test]
fn size_grows_by_one_per_prime_and_not_on_exhaustion() {
    let mut sieve = bounded(50);
    let mut before = sieve.size();
    loop {
        match sieve.next() {
            Some(_) => {
                let after = sieve.size();
                assert_eq!(after, before + 1);
                before = after;
            }
            None => {
                assert_eq!(sieve.size(), before);
                break;
            }
        }
    }
}

#[test]
fn output_is_strictly_increasing() {
    let mut sieve = bounded(1000);
    let primes = drain(&mut sieve);
    assert!(primes.len() > 1);
    for w in primes.windows(2) {
        assert!(w[0] < w[1]);
    }
}
