//! Probabilistic primality testing by Fermat's test, and helpers that draw
//! random probable primes and random coprime exponents.

use vstd::prelude::*;

use vstd::arithmetic::power::pow;

use crate::euclid::{gcd, gcd_nat};
use crate::exponent::fast_exp_mod;
use crate::prng::Prng;

verus! {

/// How many draws the searching helpers make before falling back to a
/// deterministic answer.  The generator has fewer than `2^31` states, so a
/// full budget visits every value its cycle can produce.
pub const DRAW_BUDGET: u64 = 0x1_0000_0000;

/// Run `num_tests` rounds of Fermat's test on `p` with random witnesses.
/// A `false` answer is definitive in the sense that some witness failed the
/// test: `w^(p-1) mod p != 1` for some `w` in `[2, p)`.  A `true` answer
/// only means every sampled witness passed.
pub fn is_probably_prime(p: i32, num_tests: i64, prng: &mut Prng) -> (r: bool)
    requires
        3 <= p,
        0 <= num_tests,
    ensures
        !r ==> exists|w: int|
            2 <= w < p && #[trigger] pow(w, (p - 1) as nat) % (p as int) != 1,
{
    let mut k: i64 = 0;
    while k < num_tests
        invariant
            3 <= p,
            0 <= k <= num_tests,
        decreases num_tests - k,
    {
        let n = prng.next_i32(2, p);
        let np = fast_exp_mod(n as i64, (p - 1) as i64, p as i64);
        if np != 1 {
            proof {
                assert(2 <= (n as int) && (n as int) < p && pow(n as int, (p - 1) as nat) % (
                p as int) != 1);
            }
            return false;
        }
        k = k + 1;
    }
    true
}

/// Draw random odd candidates from `[min, max]` until one passes the
/// Fermat rounds.  Each candidate is odd and stays in range; once the draw
/// budget exhausts the generator's cycle, the last candidate is returned
/// rather than spinning on repeats.
pub fn find_prime(prng: &mut Prng, min: i32, max: i32, num_tests: i64) -> (r: i64)
    requires
        3 <= min < max,
        0 <= num_tests,
    ensures
        min <= r <= max,
        r % 2 == 1,
{
    let mut attempts: u64 = 0;
    let mut candidate: i32 = min | 1;
    proof {
        assert(min <= candidate && candidate <= min + 1 && candidate % 2 == 1) by (bit_vector)
            requires
                3 <= min < 0x7fff_ffff,
                candidate == min | 1,
        ;
    }
    while attempts < DRAW_BUDGET
        invariant
            3 <= min < max,
            0 <= num_tests,
            min <= candidate <= max,
            candidate % 2 == 1,
        decreases DRAW_BUDGET - attempts,
    {
        let drawn = prng.next_i32(min, max);
        let p = drawn | 1;
        proof {
            assert(drawn <= p && p <= drawn + 1 && p % 2 == 1) by (bit_vector)
                requires
                    3 <= drawn < 0x7fff_ffff,
                    p == drawn | 1,
            ;
        }
        candidate = p;
        if is_probably_prime(p, num_tests, prng) {
            return p as i64;
        }
        attempts = attempts + 1;
    }
    candidate as i64
}

/// `n - 1` is always coprime to `n`.
proof fn lemma_coprime_pred(n: int)
    requires
        4 <= n,
    ensures
        gcd_nat((n - 1) as nat, n as nat) == 1,
{
    let m = (n - 1) as nat;
    vstd::arithmetic::div_mod::lemma_small_mod(m, n as nat);
    assert(gcd_nat(m, n as nat) == gcd_nat(n as nat, m));
    assert(n as nat % m == 1) by {
        vstd::arithmetic::div_mod::lemma_mod_add_multiples_vanish(1, m as int);
        vstd::arithmetic::div_mod::lemma_small_mod(1, m);
    }
    assert(gcd_nat(n as nat, m) == gcd_nat(m, 1));
    assert(m % 1 == 0) by {
        vstd::arithmetic::div_mod::lemma_mod_self_0(1);
        vstd::arithmetic::div_mod::lemma_mod_is_zero(m, 1);
    }
    assert(gcd_nat(m, 1) == gcd_nat(1, 0));
}

/// Draw random exponents in `[3, lambda_n)` until one is coprime to
/// `lambda_n`; after a full draw budget, fall back to `lambda_n - 1`,
/// which is always coprime.
pub fn random_exponent(prng: &mut Prng, lambda_n: i64) -> (r: i64)
    requires
        4 <= lambda_n <= 0x1_0000_0003,
    ensures
        3 <= r < lambda_n,
        gcd_nat(r as nat, lambda_n as nat) == 1,
{
    let mut attempts: u64 = 0;
    while attempts < DRAW_BUDGET
        invariant
            4 <= lambda_n <= 0x1_0000_0003,
        decreases DRAW_BUDGET - attempts,
    {
        let e = prng.next_i64(3, lambda_n);
        if gcd(e, lambda_n) == 1 {
            return e;
        }
        attempts = attempts + 1;
    }
    proof {
        lemma_coprime_pred(lambda_n as int);
    }
    lambda_n - 1
}

} // verus!
