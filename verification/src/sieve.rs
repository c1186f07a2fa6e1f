//! The sieve of Eratosthenes, verified against a direct definition of
//! primality, and the conversion of a sieve into the list of primes it
//! marks.

use vstd::prelude::*;

use vstd::arithmetic::div_mod::{lemma_fundamental_div_mod, lemma_mod_multiples_basic};

verus! {

/// `n` is prime: at least two, with no divisor strictly between one and
/// itself.
pub open spec fn is_prime(n: int) -> bool {
    2 <= n && forall|d: int| 2 <= d < n ==> #[trigger] (n % d) != 0
}

/// Divisibility is transitive: a divisor of a divisor divides.
pub proof fn lemma_divides_trans(e: int, d: int, k: int)
    requires
        1 <= e,
        1 <= d,
        d % e == 0,
        k % d == 0,
    ensures
        k % e == 0,
{
    let m = k / d;
    let l = d / e;
    lemma_fundamental_div_mod(k, d);
    lemma_fundamental_div_mod(d, e);
    assert(k == (l * m) * e) by (nonlinear_arith)
        requires
            k == d * m,
            d == e * l,
    ;
    lemma_mod_multiples_basic(l * m, e);
}

/// Any composite number has a divisor whose square does not exceed it.
pub proof fn lemma_small_divisor(k: int)
    requires
        2 <= k,
        !is_prime(k),
    ensures
        exists|d: int| 2 <= d && d * d <= k && #[trigger] (k % d) == 0,
{
    let d0 = choose|d: int| 2 <= d < k && #[trigger] (k % d) == 0;
    if d0 * d0 <= k {
        assert(2 <= d0 && d0 * d0 <= k && k % d0 == 0);
    } else {
        let q = k / d0;
        lemma_fundamental_div_mod(k, d0);
        vstd::arithmetic::div_mod::lemma_div_pos_is_pos(k, d0);
        assert(k == d0 * q);
        assert(q >= 2) by (nonlinear_arith)
            requires
                k == d0 * q,
                2 <= d0 < k,
                0 <= q,
        ;
        assert(q * q <= k) by (nonlinear_arith)
            requires
                k == d0 * q,
                d0 * d0 > k,
                2 <= d0,
                2 <= q,
        ;
        lemma_mod_multiples_basic(d0, q);
        assert(k % q == 0) by {
            assert(d0 * q == q * d0) by (nonlinear_arith);
        }
        assert(2 <= q && q * q <= k && k % q == 0);
    }
}

/// What the initial marking leaves true: two, and every odd number from
/// three up.
pub open spec fn sieve_base(k: int) -> bool {
    k == 2 || (3 <= k && k % 2 == 1)
}

/// What an entry holds after every pass below `i`: still a base candidate,
/// and no divisor at least three and below `i` whose square fits.
pub open spec fn sieve_entry(k: int, i: int) -> bool {
    sieve_base(k) && !(exists|d: int| 3 <= d < i && d * d <= k && #[trigger] (k % d) == 0)
}

/// A surviving entry at the end of the passes is exactly a prime.
proof fn lemma_sieve_entry_prime(k: int, i: int)
    requires
        0 <= k,
        3 <= i,
        i * i > k,
    ensures
        sieve_entry(k, i) == is_prime(k),
{
    if k == 2 {
        assert forall|d: int| 3 <= d < i && d * d <= 2 implies #[trigger] (2 as int % d) != 0 by {
            assert(d * d > 2) by (nonlinear_arith)
                requires
                    3 <= d,
            ;
        }
        assert(sieve_entry(2, i));
        assert(is_prime(2));
    } else if k < 2 {
        assert(!sieve_base(k));
        assert(!is_prime(k));
    } else if k % 2 == 0 {
        assert(!sieve_base(k));
        assert(k % 2 == 0 && 2 < k);
        assert(!is_prime(k));
    } else {
        // Odd k of at least three.
        if is_prime(k) {
            assert forall|d: int| 3 <= d < i && d * d <= k implies #[trigger] (k % d) != 0 by {
                if k % d == 0 {
                    assert(d < k) by (nonlinear_arith)
                        requires
                            3 <= d,
                            d * d <= k,
                    ;
                }
            }
            assert(sieve_entry(k, i));
        } else {
            lemma_small_divisor(k);
            let d = choose|d: int| 2 <= d && d * d <= k && #[trigger] (k % d) == 0;
            assert(d % 2 != 0 || k % 2 == 0) by {
                if d % 2 == 0 {
                    lemma_divides_trans(2, d, k);
                }
            }
            assert(3 <= d);
            assert(d < i) by (nonlinear_arith)
                requires
                    d * d <= k,
                    k < i * i,
                    0 < d,
                    0 < i,
            ;
            assert(!sieve_entry(k, i));
        }
    }
}

/// Build a sieve of Eratosthenes: entry `k` of the result says whether `k`
/// is prime.
pub fn sieve_of_eratosthenes(max: usize) -> (r: Vec<bool>)
    requires
        max < usize::MAX / 2,
    ensures
        r@.len() == max + 1,
        forall|k: int| 0 <= k <= max ==> r@[k] == is_prime(k),
{
    let mut sieve: Vec<bool> = Vec::new();
    sieve.resize(max + 1, false);
    if max < 2 {
        proof {
            assert forall|k: int| 0 <= k <= max implies sieve@[k] == is_prime(k) by {
                assert(!is_prime(k));
            }
        }
        return sieve;
    }
    sieve[2] = true;
    let mut k: usize = 3;
    while k <= max
        invariant
            max < usize::MAX / 2,
            2 <= max,
            sieve@.len() == max + 1,
            3 <= k,
            k % 2 == 1,
            k <= max + 2,
            forall|t: int| 0 <= t <= max ==> sieve@[t] == (t == 2 || (3 <= t && t % 2 == 1 && t
                < k)),
        decreases max + 2 - k,
    {
        sieve[k] = true;
        k = k + 2;
    }
    proof {
        assert forall|t: int| 0 <= t <= max implies sieve@[t] == sieve_base(t) by {
            if 3 <= t && t % 2 == 1 {
                assert(t < k);
            }
        }
    }
    let mut i: usize = 3;
    while i <= max / i
        invariant
            max < usize::MAX / 2,
            2 <= max,
            sieve@.len() == max + 1,
            3 <= i,
            i <= max + 2,
            i % 2 == 1,
            forall|t: int| 0 <= t <= max ==> sieve@[t] == sieve_entry(t, i as int),
        decreases max + 2 - i,
    {
        proof {
            lemma_fundamental_div_mod(max as int, i as int);
            vstd::arithmetic::div_mod::lemma_mod_bound(max as int, i as int);
            assert(i * i <= max) by (nonlinear_arith)
                requires
                    i <= max / i,
                    max == i * (max / i) + max % i,
                    0 <= max % i,
                    0 < i,
            ;
        }
        proof {
            lemma_mod_multiples_basic(i as int, i as int);
            assert(i <= max) by (nonlinear_arith)
                requires
                    i * i <= max,
                    3 <= i,
            ;
        }
        if sieve[i] {
            let mut j: usize = i * i;
            while j <= max
                invariant
                    max < usize::MAX / 2,
                    sieve@.len() == max + 1,
                    3 <= i,
                    i <= max,
                    i * i <= j,
                    j <= max + i,
                    j % i == 0,
                    forall|t: int| 0 <= t <= max ==> sieve@[t] == (sieve_entry(t, i as int) && !(
                    t % (i as int) == 0 && i * i <= t < j)),
                decreases max + i - j,
            {
                let ghost prev = sieve@;
                sieve[j] = false;
                proof {
                    assert forall|t: int|
                        0 <= t <= max implies sieve@[t] == (sieve_entry(t, i as int) && !(t % (
                    i as int) == 0 && i * i <= t < j + i)) by {
                        if t != j {
                            assert(sieve@[t] == prev[t]);
                            assert(prev[t] == (sieve_entry(t, i as int) && !(t % (i as int) == 0
                                && i * i <= t < j)));
                        }
                        if t != j && i * i <= t < j + i && t % (i as int) == 0 && t >= j {
                            // Two distinct multiples of i cannot sit within i of each other.
                            lemma_fundamental_div_mod(t, i as int);
                            lemma_fundamental_div_mod(j as int, i as int);
                            assert(false) by (nonlinear_arith)
                                requires
                                    t == (i as int) * (t / (i as int)),
                                    j == (i as int) * ((j as int) / (i as int)),
                                    j < t < j + i,
                                    0 < i,
                            ;
                        }
                    }
                }
                proof {
                    vstd::arithmetic::div_mod::lemma_mod_add_multiples_vanish(j as int, i as int);
                    assert((j + i) % (i as int) == 0) by {
                        assert((j + i) % (i as int) == ((i as int) + (j as int)) % (i as int));
                    }
                }
                let ghost j_prev = j;
                j = j + i;
                proof {
                    assert(j == j_prev + i);
                    assert forall|t: int|
                        0 <= t <= max implies sieve@[t] == (sieve_entry(t, i as int) && !(t % (
                    i as int) == 0 && i * i <= t < j)) by {
                        assert(sieve@[t] == (sieve_entry(t, i as int) && !(t % (i as int) == 0
                            && i * i <= t < j_prev + i)));
                    }
                }
            }
            proof {
                assert forall|t: int| 0 <= t <= max implies sieve@[t] == sieve_entry(
                    t,
                    i + 2,
                ) by {
                    lemma_strike_extends(t, i as int, j as int, max as int, sieve@[t]);
                }
            }
        } else {
            proof {
                assert forall|t: int| 0 <= t <= max implies sieve@[t] == sieve_entry(
                    t,
                    i + 2,
                ) by {
                    lemma_skip_extends(t, i as int, max as int);
                }
            }
        }
        i = i + 2;
    }
    proof {
        lemma_fundamental_div_mod(max as int, i as int);
        vstd::arithmetic::div_mod::lemma_mod_bound(max as int, i as int);
        assert(i * i > max) by (nonlinear_arith)
            requires
                i > max / i,
                max == i * (max / i) + max % i,
                0 <= max % i < i,
                0 < i,
        ;
        assert forall|t: int| 0 <= t <= max implies sieve@[t] == is_prime(t) by {
            lemma_sieve_entry_prime(t, i as int);
        }
    }
    sieve
}

/// After striking every multiple of `i` from `i * i` up to `max`, the
/// surviving entries are exactly those with no small divisor below `i + 2`.
proof fn lemma_strike_extends(t: int, i: int, j: int, max: int, entry: bool)
    requires
        3 <= i,
        i % 2 == 1,
        0 <= t <= max,
        j > max,
        j % i == 0,
        i * i <= j,
        entry == (sieve_entry(t, i) && !(t % i == 0 && i * i <= t < j)),
    ensures
        entry == sieve_entry(t, i + 2),
{
    if entry {
        assert forall|d: int| 3 <= d < i + 2 && d * d <= t implies #[trigger] (t % d) != 0 by {
            if t % d == 0 {
                if d < i {
                    assert(!sieve_entry(t, i));
                } else if d == i {
                    assert(t % i == 0 && i * i <= t <= max < j);
                } else {
                    // d == i + 1 is even; an even divisor of an odd entry is
                    // impossible, and even entries are not in the sieve base.
                    assert(d % 2 == 0);
                    lemma_divides_trans(2, d, t);
                    assert(t % 2 == 0);
                    assert(sieve_base(t));
                    assert(t == 2);
                    assert(d * d > t) by (nonlinear_arith)
                        requires
                            4 <= d,
                            t == 2,
                    ;
                }
            }
        }
        assert(sieve_entry(t, i + 2));
    } else {
        if sieve_entry(t, i + 2) {
            assert(sieve_entry(t, i));
            assert(!(t % i == 0 && i * i <= t < j)) by {
                if t % i == 0 && i * i <= t {
                    assert(3 <= i < i + 2 && i * i <= t && t % i == 0);
                    assert(!sieve_entry(t, i + 2));
                }
            }
        }
    }
}

/// Skipping a composite pass index loses nothing: anything it divides is
/// already struck through one of its own divisors.
proof fn lemma_skip_extends(t: int, i: int, max: int)
    requires
        3 <= i,
        i % 2 == 1,
        0 <= t <= max,
        !sieve_entry(i, i),
    ensures
        sieve_entry(t, i) == sieve_entry(t, i + 2),
{
    if sieve_entry(t, i) {
        assert forall|d: int| 3 <= d < i + 2 && d * d <= t implies #[trigger] (t % d) != 0 by {
            if t % d == 0 {
                if d < i {
                    assert(!sieve_entry(t, i));
                } else if d == i {
                    // The pass index itself is composite: pick up its small
                    // divisor and pass through it.
                    assert(sieve_base(i));
                    let e = choose|e: int| 3 <= e < i && e * e <= i && #[trigger] (i % e) == 0;
                    lemma_divides_trans(e, i, t);
                    assert(e * e <= t) by (nonlinear_arith)
                        requires
                            e * e <= i,
                            i * i <= t,
                            3 <= e,
                            3 <= i,
                    ;
                    assert(!sieve_entry(t, i));
                } else {
                    assert(d % 2 == 0);
                    lemma_divides_trans(2, d, t);
                    assert(sieve_base(t));
                    assert(t == 2);
                    assert(d * d > t) by (nonlinear_arith)
                        requires
                            4 <= d,
                            t == 2,
                    ;
                }
            }
        }
        assert(sieve_entry(t, i + 2));
    } else {
        assert(!sieve_entry(t, i + 2));
    }
}

/// Collect the primes a sieve marks, in increasing order.
pub fn sieve_to_primes(sieve: &Vec<bool>) -> (r: Vec<i64>)
    requires
        sieve@.len() < 0x8000_0000_0000_0000,
        forall|k: int| 0 <= k < sieve@.len() ==> sieve@[k] == is_prime(k),
    ensures
        forall|t: int| 0 <= t < r@.len() ==> is_prime(#[trigger] r@[t] as int),
        forall|t: int| 0 <= t < r@.len() ==> 0 <= #[trigger] r@[t] < sieve@.len(),
        forall|t: int, u: int| 0 <= t < u < r@.len() ==> r@[t] < r@[u],
        forall|k: int| 0 <= k < sieve@.len() && is_prime(k) ==> exists|t: int|
            0 <= t < r@.len() && #[trigger] r@[t] == k,
{
    let mut primes: Vec<i64> = Vec::new();
    if sieve.len() <= 2 {
        proof {
            assert forall|k: int| 0 <= k < sieve@.len() implies !is_prime(k) by {}
        }
        return primes;
    }
    primes.push(2);
    let mut k: usize = 3;
    proof {
        assert(is_prime(2));
        assert(primes@[0] == 2);
    }
    while k < sieve.len()
        invariant
            2 < sieve@.len() < 0x8000_0000_0000_0000,
            3 <= k,
            k % 2 == 1,
            forall|j: int| 0 <= j < sieve@.len() ==> sieve@[j] == is_prime(j),
            1 <= primes@.len(),
            forall|t: int| 0 <= t < primes@.len() ==> is_prime(#[trigger] primes@[t] as int),
            forall|t: int| 0 <= t < primes@.len() ==> 0 <= (#[trigger] primes@[t])
                < sieve@.len(),
            forall|t: int| 0 <= t < primes@.len() ==> (#[trigger] primes@[t]) < k,
            forall|t: int, u: int| 0 <= t < u < primes@.len() ==> primes@[t] < primes@[u],
            forall|j: int| 0 <= j < k && j < sieve@.len() && is_prime(j) ==> exists|t: int|
                0 <= t < primes@.len() && #[trigger] primes@[t] == j,
        decreases sieve@.len() + 2 - k,
    {
        if sieve[k] {
            let ghost before = primes@;
            primes.push(k as i64);
            proof {
                assert(primes@[primes@.len() - 1] == k as i64);
                assert forall|j: int|
                    0 <= j < k + 2 && j < sieve@.len() && is_prime(j) implies exists|t: int|
                    0 <= t < primes@.len() && #[trigger] primes@[t] == j by {
                    if j < k {
                        let t = choose|t: int| 0 <= t < before.len() && before[t] == j;
                        assert(primes@[t] == j);
                    } else if j == k {
                        assert(primes@[primes@.len() - 1] == j);
                    } else {
                        // j == k + 1 is even and above two, hence not prime.
                        assert(j % 2 == 0 && j > 2);
                        assert(!is_prime(j));
                    }
                }
            }
        } else {
            proof {
                assert forall|j: int|
                    0 <= j < k + 2 && j < sieve@.len() && is_prime(j) implies exists|t: int|
                    0 <= t < primes@.len() && #[trigger] primes@[t] == j by {
                    if j < k {
                    } else if j == k {
                        assert(sieve@[k as int] == is_prime(k as int));
                        assert(false);
                    } else {
                        assert(j % 2 == 0 && j > 2);
                        assert(!is_prime(j));
                    }
                }
            }
        }
        k = k + 2;
    }
    primes
}

} // verus!
