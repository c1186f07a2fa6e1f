//! Integer factorisation by trial division — alone, or seeded with a list
//! of primes — and the product query that checks a factorisation.

use vstd::prelude::*;

use vstd::arithmetic::div_mod::{lemma_fundamental_div_mod, lemma_mod_multiples_basic};

use crate::sieve::{is_prime, lemma_divides_trans, lemma_small_divisor};

verus! {

/// Product of `s[i..]`, with the empty product one.
pub open spec fn product_from(s: Seq<i64>, i: int) -> int
    decreases s.len() - i,
{
    if i < 0 || i >= s.len() {
        1
    } else {
        s[i] * product_from(s, i + 1)
    }
}

/// A product of entries at least one is at least one.
pub proof fn lemma_product_pos(s: Seq<i64>, i: int)
    requires
        forall|t: int| 0 <= t < s.len() ==> 1 <= #[trigger] s[t],
    ensures
        1 <= product_from(s, i),
    decreases s.len() - i,
{
    if 0 <= i < s.len() {
        lemma_product_pos(s, i + 1);
        assert(1 <= s[i] * product_from(s, i + 1)) by (nonlinear_arith)
            requires
                1 <= s[i],
                1 <= product_from(s, i + 1),
        ;
    }
}

/// Appending a factor multiplies every suffix product by it.
pub proof fn lemma_product_push(s: Seq<i64>, x: i64, i: int)
    requires
        0 <= i <= s.len(),
    ensures
        product_from(s.push(x), i) == product_from(s, i) * x,
    decreases s.len() - i,
{
    if i < s.len() {
        lemma_product_push(s, x, i + 1);
        assert(s.push(x)[i] == s[i]);
        assert(s[i] * (product_from(s, i + 1) * x) == (s[i] * product_from(s, i + 1)) * x)
            by (nonlinear_arith);
    } else {
        assert(s.push(x)[i] == x);
        assert(product_from(s.push(x), i + 1) == 1);
    }
}

/// `n` has no divisor in `[2, bound)`.
pub open spec fn no_small_divisor(n: int, bound: int) -> bool {
    forall|d: int| 2 <= d < bound ==> #[trigger] (n % d) != 0
}

/// Dividing out a divisor keeps the quotient clean of the small divisors
/// the original had none of.
proof fn lemma_quotient_clean(n: int, f: int, bound: int)
    requires
        1 <= f,
        1 <= n,
        n % f == 0,
        no_small_divisor(n, bound),
    ensures
        no_small_divisor(n / f, bound),
        1 <= n / f,
{
    lemma_fundamental_div_mod(n, f);
    vstd::arithmetic::div_mod::lemma_div_pos_is_pos(n, f);
    let q = n / f;
    assert(1 <= q) by (nonlinear_arith)
        requires
            n == f * q,
            1 <= n,
            0 <= q,
    ;
    assert forall|d: int| 2 <= d < bound implies #[trigger] (q % d) != 0 by {
        if q % d == 0 {
            lemma_mod_multiples_basic(f, q);
            assert(n % q == 0) by {
                assert(f * q == q * f) by (nonlinear_arith);
            }
            lemma_divides_trans(d, q, n);
        }
    }
}

/// A divisor of a number with no smaller divisors is prime.
proof fn lemma_clean_divisor_prime(n: int, f: int)
    requires
        2 <= f <= n,
        n % f == 0,
        no_small_divisor(n, f),
    ensures
        is_prime(f),
{
    assert forall|d: int| 2 <= d < f implies #[trigger] (f % d) != 0 by {
        if f % d == 0 {
            lemma_divides_trans(d, f, n);
        }
    }
}

/// A number above one with no divisor whose square fits is prime.
proof fn lemma_no_root_divisor_prime(n: int, bound: int)
    requires
        2 <= n,
        no_small_divisor(n, bound),
        bound * bound > n,
        1 <= bound,
    ensures
        is_prime(n),
{
    if !is_prime(n) {
        lemma_small_divisor(n);
        let d = choose|d: int| 2 <= d && d * d <= n && #[trigger] (n % d) == 0;
        assert(d < bound) by (nonlinear_arith)
            requires
                d * d <= n,
                n < bound * bound,
                0 < d,
                0 < bound,
        ;
    }
}

/// Factor `num` into primes by trial division: first the twos, then odd
/// candidates whose square still fits.  The returned factors are prime and
/// multiply back to `num`.
pub fn find_factors(num: i64) -> (r: Vec<i64>)
    requires
        1 <= num,
    ensures
        product_from(r@, 0) == num,
        forall|t: int| 0 <= t < r@.len() ==> is_prime(#[trigger] r@[t] as int),
        forall|t: int| 0 <= t < r@.len() ==> 2 <= #[trigger] r@[t],
        forall|t: int, u: int| 0 <= t < u < r@.len() ==> r@[t] <= r@[u],
{
    let mut factors: Vec<i64> = Vec::new();
    let mut n: i64 = num;
    while n % 2 == 0
        invariant
            1 <= n <= num,
            product_from(factors@, 0) * n == num,
            forall|t: int| 0 <= t < factors@.len() ==> #[trigger] factors@[t] == 2,
        decreases n,
    {
        proof {
            lemma_product_push(factors@, 2, 0);
            lemma_fundamental_div_mod(n as int, 2);
            assert(product_from(factors@, 0) * 2 * (n / 2) == product_from(factors@, 0) * n)
                by (nonlinear_arith)
                requires
                    n == 2 * (n / 2),
            ;
        }
        factors.push(2);
        n = n / 2;
    }
    proof {
        assert(no_small_divisor(n as int, 3)) by {
            assert forall|d: int| 2 <= d < 3 implies #[trigger] ((n as int) % d) != 0 by {
                assert(d == 2);
            }
        }
        assert(is_prime(2));
        assert forall|t: int| 0 <= t < factors@.len() implies is_prime(
            #[trigger] factors@[t] as int,
        ) by {}
    }
    let mut factor: i64 = 3;
    while factor <= n / factor
        invariant
            1 <= n <= num,
            3 <= factor,
            factor % 2 == 1,
            factor <= num + 2,
            n % 2 != 0,
            product_from(factors@, 0) * n == num,
            no_small_divisor(n as int, factor as int),
            forall|t: int| 0 <= t < factors@.len() ==> is_prime(#[trigger] factors@[t] as int),
            forall|t: int| 0 <= t < factors@.len() ==> 2 <= #[trigger] factors@[t],
            forall|t: int| 0 <= t < factors@.len() ==> #[trigger] factors@[t] <= factor,
            forall|t: int, u: int| 0 <= t < u < factors@.len() ==> factors@[t] <= factors@[u],
        decreases n, num + 2 - factor,
    {
        let ghost n_outer = n;
        proof {
            lemma_fundamental_div_mod(n as int, factor as int);
            vstd::arithmetic::div_mod::lemma_mod_bound(n as int, factor as int);
            assert(factor * factor <= n) by (nonlinear_arith)
                requires
                    factor <= n / factor,
                    n == factor * (n / factor) + n % factor,
                    0 <= n % factor,
                    0 < factor,
            ;
            assert(factor <= n) by (nonlinear_arith)
                requires
                    factor * factor <= n,
                    3 <= factor,
            ;
        }
        while n % factor == 0
            invariant
                1 <= n,
                n <= num,
                3 <= factor,
                factor % 2 == 1,
                n <= n_outer,
                n % 2 != 0 || n % factor == 0,
                product_from(factors@, 0) * n == num,
                no_small_divisor(n as int, factor as int),
                forall|t: int| 0 <= t < factors@.len() ==> is_prime(
                    #[trigger] factors@[t] as int,
                ),
                forall|t: int| 0 <= t < factors@.len() ==> 2 <= #[trigger] factors@[t],
                forall|t: int| 0 <= t < factors@.len() ==> #[trigger] factors@[t] <= factor,
                forall|t: int, u: int| 0 <= t < u < factors@.len() ==> factors@[t]
                    <= factors@[u],
            decreases n,
        {
            proof {
                assert(factor <= n) by {
                    lemma_fundamental_div_mod(n as int, factor as int);
                    vstd::arithmetic::div_mod::lemma_div_pos_is_pos(n as int, factor as int);
                    assert(n >= factor) by (nonlinear_arith)
                        requires
                            n == factor * ((n as int) / (factor as int)),
                            1 <= n,
                            3 <= factor,
                            0 <= (n as int) / (factor as int),
                    ;
                }
                lemma_clean_divisor_prime(n as int, factor as int);
                lemma_product_push(factors@, factor, 0);
                lemma_fundamental_div_mod(n as int, factor as int);
                assert(product_from(factors@, 0) * factor * ((n as int) / (factor as int)) == product_from(
                    factors@,
                    0,
                ) * n) by (nonlinear_arith)
                    requires
                        n == factor * ((n as int) / (factor as int)),
                ;
                lemma_quotient_clean(n as int, factor as int, factor as int);
                // The quotient stays odd: an even quotient would make n even.
                let q = n as int / factor as int;
                if q % 2 == 0 {
                    lemma_mod_multiples_basic(factor as int, q);
                    assert((n as int) % q == 0) by {
                        assert(factor as int * q == q * factor as int) by (nonlinear_arith);
                    }
                    lemma_divides_trans(2, q, n as int);
                    assert(n % 2 == 0);
                }
                vstd::arithmetic::div_mod::lemma_div_is_strictly_smaller(n as int, factor as int);
            }
            factors.push(factor);
            n = n / factor;
        }
        proof {
            // Extending the bound by two: the candidate itself no longer
            // divides, and the even value between candidates cannot divide
            // an odd number.
            assert forall|d: int| 2 <= d < factor + 2 implies #[trigger] ((n as int) % d)
                != 0 by {
                if (n as int) % d == 0 {
                    if d == factor + 1 {
                        lemma_divides_trans(2, d, n as int);
                    }
                }
            }
            assert(factor + 2 <= num) by (nonlinear_arith)
                requires
                    factor * factor <= n_outer,
                    n_outer <= num,
                    3 <= factor,
            ;
        }
        factor = factor + 2;
    }
    if n > 1 {
        proof {
            lemma_fundamental_div_mod(n as int, factor as int);
            vstd::arithmetic::div_mod::lemma_mod_bound(n as int, factor as int);
            assert(factor * factor > n) by (nonlinear_arith)
                requires
                    factor > n / factor,
                    n == factor * (n / factor) + n % factor,
                    0 <= n % factor < factor,
                    0 < factor,
            ;
            lemma_no_root_divisor_prime(n as int, factor as int);
            lemma_product_push(factors@, n, 0);
            // The trailing factor is no smaller than any emitted one: were
            // it below the candidate it would be its own small divisor.
            assert(n >= factor) by {
                if n < factor {
                    vstd::arithmetic::div_mod::lemma_mod_self_0(n as int);
                    assert((n as int) % (n as int) == 0);
                }
            }
        }
        factors.push(n);
    }
    factors
}

/// Multiply the entries of a vector of factors.  The precondition asks
/// exactly that the product fit an `i64` and that no factor be below one.
pub fn multiply_vector(factors: &Vec<i64>) -> (r: i64)
    requires
        forall|t: int| 0 <= t < factors@.len() ==> 1 <= #[trigger] factors@[t],
        product_from(factors@, 0) <= i64::MAX,
    ensures
        r == product_from(factors@, 0),
{
    let ghost s = factors@;
    let mut product: i64 = 1;
    let mut i: usize = 0;
    while i < factors.len()
        invariant
            0 <= i <= s.len(),
            factors@ == s,
            forall|t: int| 0 <= t < s.len() ==> 1 <= #[trigger] s[t],
            product_from(s, 0) <= i64::MAX,
            1 <= product,
            product * product_from(s, i as int) == product_from(s, 0),
        decreases s.len() - i,
    {
        proof {
            lemma_product_pos(s, i + 1);
            assert((product * s[i as int]) * product_from(s, i + 1) == product * product_from(
                s,
                i as int,
            )) by (nonlinear_arith)
                requires
                    product_from(s, i as int) == s[i as int] * product_from(s, i + 1),
            ;
            assert(product * s[i as int] <= product_from(s, 0) && 1 <= product * s[i as int])
                by (nonlinear_arith)
                requires
                    (product * s[i as int]) * product_from(s, i + 1) == product_from(s, 0),
                    1 <= product_from(s, i + 1),
                    1 <= product,
                    1 <= s[i as int],
            ;
        }
        product = product * factors[i];
        i = i + 1;
    }
    product
}

/// Every number of at least two has a prime divisor that is the number
/// itself or no larger than its square root.
proof fn lemma_least_prime_divisor(k: int)
    requires
        2 <= k,
    ensures
        exists|p: int|
            is_prime(p) && (#[trigger] (k % p)) == 0 && (p == k || p * p <= k),
    decreases k,
{
    if is_prime(k) {
        vstd::arithmetic::div_mod::lemma_mod_self_0(k);
        assert(is_prime(k) && k % k == 0 && k == k);
    } else {
        lemma_small_divisor(k);
        let d = choose|d: int| 2 <= d && d * d <= k && #[trigger] (k % d) == 0;
        assert(d < k) by (nonlinear_arith)
            requires
                2 <= d,
                d * d <= k,
        ;
        lemma_least_prime_divisor(d);
        let p = choose|p: int|
            is_prime(p) && (#[trigger] (d % p)) == 0 && (p == d || p * p <= d);
        lemma_divides_trans(p, d, k);
        if p == d {
            assert(p * p <= k);
        } else {
            assert(p * p <= d);
        }
        assert(is_prime(p) && k % p == 0 && (p == k || p * p <= k));
    }
}

/// A quotient keeps every non-divisor its source had.
proof fn lemma_quotient_keeps_nondiv(n: int, f: int, p: int)
    requires
        1 <= f,
        1 <= n,
        1 <= p,
        n % f == 0,
        n % p != 0,
    ensures
        (n / f) % p != 0,
{
    if (n / f) % p == 0 {
        lemma_fundamental_div_mod(n, f);
        let q = n / f;
        vstd::arithmetic::div_mod::lemma_div_pos_is_pos(n, f);
        assert(1 <= q) by (nonlinear_arith)
            requires
                n == f * q,
                1 <= n,
                0 <= q,
        ;
        lemma_mod_multiples_basic(f, q);
        assert(n % q == 0) by {
            assert(f * q == q * f) by (nonlinear_arith);
        }
        lemma_divides_trans(p, q, n);
    }
}

/// Factor `num` against a sorted list of primes, stopping once the running
/// candidate can no longer divide what is left.  The factors drawn from the
/// list are prime outright; when the list covers every prime whose square
/// fits in `num`, the trailing remainder is prime too, so the result is the
/// prime factorization.
pub fn find_factors_sieve(primes: &Vec<i64>, num: i64) -> (r: Vec<i64>)
    requires
        1 <= num,
        forall|t: int| 0 <= t < primes@.len() ==> 2 <= #[trigger] primes@[t],
        forall|t: int| 0 <= t < primes@.len() ==> is_prime(#[trigger] primes@[t] as int),
        forall|t: int, u: int| 0 <= t < u < primes@.len() ==> primes@[t] < primes@[u],
    ensures
        product_from(r@, 0) == num,
        forall|t: int| 0 <= t < r@.len() ==> 2 <= #[trigger] r@[t],
        (forall|q: int|
            is_prime(q) && q * q <= num ==> exists|t: int|
                0 <= t < primes@.len() && #[trigger] primes@[t] == q) ==> forall|t: int|
            0 <= t < r@.len() ==> is_prime(#[trigger] r@[t] as int),
{
    let ghost plist = primes@;
    let mut factors: Vec<i64> = Vec::new();
    let mut n: i64 = num;
    let mut idx: usize = 0;
    while idx < primes.len()
        invariant
            1 <= n <= num,
            primes@ == plist,
            product_from(factors@, 0) * n == num,
            forall|t: int| 0 <= t < plist.len() ==> 2 <= #[trigger] plist[t],
            forall|t: int| 0 <= t < plist.len() ==> is_prime(#[trigger] plist[t] as int),
            forall|t: int, u: int| 0 <= t < u < plist.len() ==> plist[t] < plist[u],
            forall|t: int| 0 <= t < factors@.len() ==> 2 <= #[trigger] factors@[t],
            forall|t: int| 0 <= t < factors@.len() ==> is_prime(#[trigger] factors@[t] as int),
            forall|t: int| 0 <= t < idx ==> (n as int) % (#[trigger] plist[t] as int) != 0,
            idx <= plist.len(),
        ensures
            1 <= n <= num,
            primes@ == plist,
            product_from(factors@, 0) * n == num,
            forall|t: int| 0 <= t < factors@.len() ==> 2 <= #[trigger] factors@[t],
            forall|t: int| 0 <= t < factors@.len() ==> is_prime(#[trigger] factors@[t] as int),
            forall|t: int| 0 <= t < idx ==> (n as int) % (#[trigger] plist[t] as int) != 0,
            idx <= plist.len(),
            idx == plist.len() || (plist[idx as int] as int) * (plist[idx as int] as int) > n
                || n < plist[idx as int],
        decreases plist.len() - idx,
    {
        let factor = primes[idx];
        let ghost n_outer = n;
        while n % factor == 0
            invariant
                1 <= n,
                n <= n_outer <= num,
                2 <= factor,
                primes@ == plist,
                factor == plist[idx as int],
                idx < plist.len(),
                is_prime(factor as int),
                product_from(factors@, 0) * n == num,
                forall|t: int| 0 <= t < plist.len() ==> 2 <= #[trigger] plist[t],
                forall|t: int| 0 <= t < factors@.len() ==> 2 <= #[trigger] factors@[t],
                forall|t: int| 0 <= t < factors@.len() ==> is_prime(
                    #[trigger] factors@[t] as int,
                ),
                forall|t: int| 0 <= t < idx ==> (n as int) % (#[trigger] plist[t] as int) != 0,
            decreases n,
        {
            proof {
                lemma_product_push(factors@, factor, 0);
                lemma_fundamental_div_mod(n as int, factor as int);
                vstd::arithmetic::div_mod::lemma_div_pos_is_pos(n as int, factor as int);
                assert(1 <= (n as int) / (factor as int)) by (nonlinear_arith)
                    requires
                        n == factor * ((n as int) / (factor as int)),
                        1 <= n,
                        0 <= (n as int) / (factor as int),
                ;
                assert(product_from(factors@, 0) * factor * ((n as int) / (factor as int))
                    == product_from(factors@, 0) * n) by (nonlinear_arith)
                    requires
                        n == factor * ((n as int) / (factor as int)),
                ;
                vstd::arithmetic::div_mod::lemma_div_is_strictly_smaller(n as int, factor as int);
                assert forall|t: int| 0 <= t < idx implies ((n / factor) as int) % (
                #[trigger] plist[t] as int) != 0 by {
                    lemma_quotient_keeps_nondiv(n as int, factor as int, plist[t] as int);
                }
            }
            factors.push(factor);
            n = n / factor;
        }
        if factor > n / factor || n < factor {
            proof {
                if factor > n / factor {
                    lemma_fundamental_div_mod(n as int, factor as int);
                    vstd::arithmetic::div_mod::lemma_mod_bound(n as int, factor as int);
                    assert((factor as int) * (factor as int) > n) by (nonlinear_arith)
                        requires
                            factor > (n as int) / (factor as int),
                            n == factor * ((n as int) / (factor as int)) + (n as int) % (
                            factor as int),
                            0 <= (n as int) % (factor as int),
                            0 < factor,
                    ;
                }
            }
            break ;
        }
        idx = idx + 1;
    }
    if n > 1 {
        proof {
            lemma_product_push(factors@, n, 0);
        }
        factors.push(n);
        proof {
            // Under the coverage hypothesis the remainder is prime: a
            // composite remainder would have a listed prime divisor whose
            // square fits, already scanned without dividing.
            if forall|q: int|
                is_prime(q) && q * q <= num ==> exists|t: int|
                    0 <= t < plist.len() && #[trigger] plist[t] == q {
                if !is_prime(n as int) {
                    lemma_least_prime_divisor(n as int);
                    let p = choose|p: int|
                        is_prime(p) && (#[trigger] ((n as int) % p)) == 0 && (p == n
                            || p * p <= n);
                    assert(p != n);
                    assert(p * p <= num);
                    let t = choose|t: int| 0 <= t < plist.len() && #[trigger] plist[t] == p;
                    assert(t < idx) by {
                        if t >= idx {
                            // The scan stopped with the candidate's square
                            // past the remainder or the remainder below the
                            // candidate; either way every unscanned listed
                            // prime is too large to divide a composite n.
                            assert(idx < plist.len());
                            assert(plist[idx as int] <= plist[t] || idx == t);
                            assert(p >= plist[idx as int]);
                            if (plist[idx as int] as int) * (plist[idx as int] as int) > n {
                                assert(p * p > n) by (nonlinear_arith)
                                    requires
                                        p >= plist[idx as int],
                                        2 <= plist[idx as int],
                                        (plist[idx as int] as int) * (plist[idx as int] as int)
                                            > n,
                                ;
                            } else {
                                assert(n < plist[idx as int]);
                                assert(p * p > n) by (nonlinear_arith)
                                    requires
                                        p >= plist[idx as int],
                                        n < plist[idx as int],
                                        2 <= p,
                                ;
                            }
                        }
                    }
                    assert((n as int) % p != 0);
                }
            }
        }
    }
    factors
}

} // verus!
