//! Greatest common divisor, least common multiple, Carmichael's totient for
//! a semiprime, and the extended-Euclid modular inverse.

use vstd::prelude::*;

verus! {

/// Euclid's greatest common divisor over non-negative integers.
pub open spec fn gcd_nat(a: nat, b: nat) -> nat
    decreases b,
{
    if b == 0 {
        a
    } else {
        gcd_nat(b, a % b)
    }
}

/// The absolute value of an integer.
pub open spec fn abs_i(a: int) -> int {
    if a < 0 {
        -a
    } else {
        a
    }
}

/// The greatest common divisor of two integers is positive unless both are
/// zero.
pub proof fn lemma_gcd_pos(a: nat, b: nat)
    requires
        a > 0 || b > 0,
    ensures
        gcd_nat(a, b) > 0,
    decreases b,
{
    if b > 0 {
        lemma_gcd_pos(b, a % b);
    }
}

/// The greatest common divisor of `|a|` and `|b|`, computed by Euclid's
/// algorithm on the absolute values.
pub fn gcd(a: i64, b: i64) -> (r: i64)
    requires
        i64::MIN < a,
        i64::MIN < b,
    ensures
        r == gcd_nat(abs_i(a as int) as nat, abs_i(b as int) as nat),
        0 <= r,
{
    let mut x: i64 = if a < 0 {
        -a
    } else {
        a
    };
    let mut y: i64 = if b < 0 {
        -b
    } else {
        b
    };
    while y != 0
        invariant
            0 <= x,
            0 <= y,
            gcd_nat(x as nat, y as nat) == gcd_nat(abs_i(a as int) as nat, abs_i(b as int) as nat),
        decreases y,
    {
        let t = x % y;
        x = y;
        y = t;
    }
    x
}

/// The least common multiple of `|a|` and `|b|`, as the exec code computes
/// it: the absolute value of `a`, divided by the greatest common divisor,
/// times the absolute value of `b`.
pub open spec fn spec_lcm(a: int, b: int) -> int {
    (abs_i(a) / gcd_nat(abs_i(a) as nat, abs_i(b) as nat) as int) * abs_i(b)
}

/// The least common multiple of `a` and `b`.  The precondition asks that
/// the inputs are not both zero and that the result fit an `i64`.
pub fn lcm(a: i64, b: i64) -> (r: i64)
    requires
        i64::MIN < a,
        i64::MIN < b,
        a != 0 || b != 0,
        spec_lcm(a as int, b as int) <= i64::MAX,
    ensures
        r == spec_lcm(a as int, b as int),
        0 <= r,
{
    let g = gcd(a, b);
    let x: i64 = if a < 0 {
        -a
    } else {
        a
    };
    let y: i64 = if b < 0 {
        -b
    } else {
        b
    };
    proof {
        lemma_gcd_pos(x as nat, y as nat);
        vstd::arithmetic::div_mod::lemma_div_pos_is_pos(x as int, g as int);
        assert((x as int / g as int) * y >= 0) by (nonlinear_arith)
            requires
                x as int / g as int >= 0,
                y >= 0,
        ;
    }
    (x / g) * y
}

/// Two numbers agree modulo `n`.
pub open spec fn cong(x: int, y: int, n: int) -> bool {
    x % n == y % n
}

/// The congruence carried by the extended-Euclid step: if `a*t ≡ r` and
/// `a*u ≡ s` modulo `n`, then `a*(t - q*u) ≡ r - q*s`.
proof fn lemma_euclid_step(a: int, t: int, u: int, r: int, s: int, q: int, n: int)
    requires
        1 <= n,
        cong(a * t, r, n),
        cong(a * u, s, n),
    ensures
        cong(a * (t - q * u), r - q * s, n),
{
    assert(a * (t - q * u) == a * t - q * (a * u)) by (nonlinear_arith);
    let x = a * t;
    let y = a * u;
    assert((q * y) % n == (q * s) % n) by {
        vstd::arithmetic::div_mod::lemma_mul_mod_noop_right(q, y, n);
        vstd::arithmetic::div_mod::lemma_mul_mod_noop_right(q, s, n);
    }
    assert((x - q * y) % n == (r - q * s) % n) by {
        vstd::arithmetic::div_mod::lemma_sub_mod_noop(x, q * y, n);
        vstd::arithmetic::div_mod::lemma_sub_mod_noop(r, q * s, n);
    }
}

/// The modular inverse of `a` modulo `n`, for `a` coprime to `n`, by the
/// extended Euclidean algorithm with the cofactor kept reduced into
/// `[0, n)`.
pub fn inverse_mod(a: i64, n: i64) -> (r: i64)
    requires
        1 <= a < n,
        gcd_nat(n as nat, a as nat) == 1,
    ensures
        0 <= r < n,
        (a * r) % (n as int) == 1,
{
    let ghost ni = n as int;
    let ghost ai = a as int;
    let n_wide: i128 = n as i128;
    let mut t: i128 = 0;
    let mut newt: i128 = 1;
    let mut r_cur: i128 = n as i128;
    let mut newr: i128 = a as i128;
    while newr != 0
        invariant
            1 <= n,
            a == ai,
            n == ni,
            n_wide == ni,
            1 <= r_cur <= n,
            0 <= newr < r_cur,
            0 <= t < n,
            0 <= newt < n,
            cong(ai * t, r_cur as int, ni),
            cong(ai * newt, newr as int, ni),
            gcd_nat(r_cur as nat, newr as nat) == gcd_nat(n as nat, a as nat),
        decreases newr,
    {
        let quotient: i128 = r_cur / newr;
        proof {
            assert(0 <= quotient <= r_cur) by {
                vstd::arithmetic::div_mod::lemma_div_pos_is_pos(r_cur as int, newr as int);
                vstd::arithmetic::div_mod::lemma_div_nonincreasing(r_cur as int, newr as int);
            }
            assert(quotient * newt <= n as int * n as int && 0 <= quotient * newt)
                by (nonlinear_arith)
                requires
                    0 <= quotient <= n,
                    0 <= newt <= n,
            ;
            assert(ni * ni < 0x4000_0000_0000_0000_0000_0000_0000_0000) by (nonlinear_arith)
                requires
                    0 <= ni < 0x8000_0000_0000_0000,
            ;
        }
        let subtrahend: i128 = (quotient * newt) % n_wide;
        proof {
            vstd::arithmetic::div_mod::lemma_mod_bound(quotient * newt, ni);
        }
        let reduced: i128 = (t + n_wide - subtrahend) % n_wide;
        proof {
            // The reduction keeps the congruence class of `t - q * newt`.
            vstd::arithmetic::div_mod::lemma_mod_bound(t + n_wide - subtrahend, ni);
            assert(cong(t + n_wide - subtrahend, t - quotient * newt, ni)) by {
                vstd::arithmetic::div_mod::lemma_mod_add_multiples_vanish(
                    t - subtrahend as int,
                    ni,
                );
                vstd::arithmetic::div_mod::lemma_sub_mod_noop_right(
                    t as int,
                    quotient * newt,
                    ni,
                );
                vstd::arithmetic::div_mod::lemma_sub_mod_noop_right(t as int, subtrahend as int, ni);
                vstd::arithmetic::div_mod::lemma_mod_twice(quotient * newt, ni);
            }
            lemma_euclid_step(
                ai,
                t as int,
                newt as int,
                r_cur as int,
                newr as int,
                quotient as int,
                ni,
            );
            vstd::arithmetic::div_mod::lemma_mul_mod_noop_right(
                ai,
                t - quotient * newt,
                ni,
            );
            vstd::arithmetic::div_mod::lemma_mul_mod_noop_right(ai, reduced as int, ni);
            vstd::arithmetic::div_mod::lemma_small_mod(reduced as nat, ni as nat);
            // The remainder step keeps the greatest common divisor.
            vstd::arithmetic::div_mod::lemma_fundamental_div_mod(r_cur as int, newr as int);
            vstd::arithmetic::div_mod::lemma_mod_bound(r_cur as int, newr as int);
            assert(gcd_nat(newr as nat, (r_cur % newr) as nat) == gcd_nat(
                r_cur as nat,
                newr as nat,
            ));
        }
        let remainder: i128 = r_cur % newr;
        t = newt;
        newt = reduced;
        r_cur = newr;
        newr = remainder;
    }
    proof {
        assert(gcd_nat(r_cur as nat, 0) == r_cur as nat);
        assert(r_cur == 1);
        vstd::arithmetic::div_mod::lemma_small_mod(1, ni as nat);
    }
    t as i64
}

/// Carmichael's totient for a product of two primes `p` and `q`:
/// `lcm(p - 1, q - 1)`.
pub fn totient(p: i64, q: i64) -> (r: i64)
    requires
        2 <= p,
        2 <= q,
        spec_lcm(p - 1, q - 1) <= i64::MAX,
    ensures
        r == spec_lcm(p - 1, q - 1),
{
    lcm(p - 1, q - 1)
}

} // verus!
