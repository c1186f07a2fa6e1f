//! Fast exponentiation by repeated squaring, plain and modular, pinned to
//! the mathematical power function.

use vstd::prelude::*;

use vstd::arithmetic::power::{
    lemma_pow0, lemma_pow1, lemma_pow_adds, lemma_pow_multiplies, lemma_pow_positive,
    lemma_square_is_pow2, pow,
};
use vstd::arithmetic::div_mod::{lemma_mul_mod_noop_general, lemma_small_mod};

verus! {

/// One repeated-squaring step: `base^exp == (base^2)^(exp / 2) * base^(exp % 2)`.
proof fn lemma_square_step(base: int, exp: nat)
    requires
        exp > 0,
    ensures
        exp % 2 == 1 ==> pow(base, exp) == base * pow(base * base, (exp / 2) as nat),
        exp % 2 == 0 ==> pow(base, exp) == pow(base * base, (exp / 2) as nat),
{
    let half = (exp / 2) as nat;
    lemma_pow_multiplies(base, 2, half);
    lemma_square_is_pow2(base);
    lemma_pow1(base);
    if exp % 2 == 1 {
        assert(exp == 2 * half + 1);
        lemma_pow_adds(base, 1, (2 * half) as nat);
    } else {
        assert(exp == 2 * half);
    }
}

/// Powers of bases at least one are at least one and monotone in the
/// exponent.
proof fn lemma_pow_bounds(b: int, e1: nat, e2: nat)
    requires
        1 <= b,
        e1 <= e2,
    ensures
        1 <= pow(b, e1) <= pow(b, e2),
    decreases e2 - e1,
{
    lemma_pow_positive(b, e1);
    lemma_pow_positive(b, e2);
    if e1 < e2 {
        lemma_pow_bounds(b, e1, (e2 - 1) as nat);
        lemma_pow_adds(b, (e2 - 1) as nat, 1);
        lemma_pow1(b);
        assert(pow(b, (e2 - 1) as nat) * 1 <= pow(b, (e2 - 1) as nat) * b) by (nonlinear_arith)
            requires
                1 <= b,
                0 < pow(b, (e2 - 1) as nat),
        ;
    }
}

/// Raise `num` to the power `p` by repeated squaring.  The precondition
/// asks exactly that the result fit an `i64`.
pub fn fast_exp(num: i64, p: i64) -> (r: i64)
    requires
        0 <= num,
        0 <= p,
        pow(num as int, p as nat) <= i64::MAX,
    ensures
        r == pow(num as int, p as nat),
{
    if num == 0 {
        if p == 0 {
            proof {
                lemma_pow0(0);
            }
            return 1;
        }
        proof {
            vstd::arithmetic::power::lemma0_pow(p as nat);
        }
        return 0;
    }
    if num == 1 {
        proof {
            vstd::arithmetic::power::lemma1_pow(p as nat);
        }
        return 1;
    }
    let ghost target = pow(num as int, p as nat);
    let mut result: i64 = 1;
    let mut base: i64 = num;
    let mut e: i64 = p;
    while e > 0
        invariant
            2 <= base,
            1 <= result,
            0 <= e,
            result * pow(base as int, e as nat) == target,
            target <= i64::MAX,
        decreases e,
    {
        proof {
            lemma_square_step(base as int, e as nat);
            lemma_pow_bounds(base as int, 1, e as nat);
            lemma_pow1(base as int);
            assert(result * base <= result * pow(base as int, e as nat)) by (nonlinear_arith)
                requires
                    1 <= result,
                    0 < base,
                    base <= pow(base as int, e as nat),
            ;
        }
        if e % 2 == 1 {
            let ghost r0 = result as int;
            result = result * base;
            proof {
                assert(1 <= r0 * base) by (nonlinear_arith)
                    requires
                        1 <= r0,
                        1 <= base,
                ;
                assert((r0 * base) * pow((base * base) as int, (e / 2) as nat) == r0 * (base
                    * pow((base * base) as int, (e / 2) as nat))) by (nonlinear_arith);
            }
        }
        e = e / 2;
        proof {
            if e == 0 {
                lemma_pow0(base as int);
                lemma_pow0((base * base) as int);
            }
        }
        if e > 0 {
            proof {
                assert(2 <= base * base) by (nonlinear_arith)
                    requires
                        2 <= base,
                ;
                lemma_pow_bounds((base * base) as int, 1, e as nat);
                lemma_pow1((base * base) as int);
                assert(base * base <= result * pow((base * base) as int, e as nat))
                    by (nonlinear_arith)
                    requires
                        1 <= result,
                        2 <= base,
                        base * base <= pow((base * base) as int, e as nat),
                ;
            }
            base = base * base;
        }
    }
    proof {
        lemma_pow0(base as int);
    }
    result
}

/// Raise `num` to the power `p` in the modulus: repeated squaring with
/// every product reduced, so intermediates stay below the modulus squared.
pub fn fast_exp_mod(num: i64, p: i64, modulus: i64) -> (r: i64)
    requires
        0 <= num,
        0 <= p,
        1 <= modulus <= 0xB504_F333,
    ensures
        r == pow(num as int, p as nat) % (modulus as int),
        0 <= r < modulus,
{
    let ghost m = modulus as int;
    let ghost target = pow(num as int, p as nat) % m;
    let mut result: i64 = 1 % modulus;
    let mut base: i64 = num % modulus;
    let mut e: i64 = p;
    proof {
        vstd::arithmetic::power::lemma_pow_mod_noop(num as int, p as nat, m);
        lemma_mul_mod_noop_general(1, pow((num % modulus) as int, p as nat), m);
        vstd::arithmetic::div_mod::lemma_mod_twice(pow((num % modulus) as int, p as nat), m);
    }
    while e > 0
        invariant
            0 <= base < modulus,
            0 <= result < modulus,
            0 <= e,
            1 <= modulus <= 0xB504_F333,
            m == modulus,
            (result * pow(base as int, e as nat)) % m == target,
        decreases e,
    {
        proof {
            lemma_square_step(base as int, e as nat);
        }
        if e % 2 == 1 {
            let ghost r0 = result as int;
            proof {
                lemma_mod_product_fits(result as int, base as int, m);
            }
            result = (result * base) % modulus;
            proof {
                // (r0 * base) % m * (base^2)^(e/2) keeps the running product.
                lemma_mul_mod_noop_general(r0 * base, pow(
                    (base * base) as int,
                    (e / 2) as nat,
                ), m);
                lemma_mul_mod_noop_general(r0, base * pow(
                    (base * base) as int,
                    (e / 2) as nat,
                ), m);
                assert(r0 * (base * pow((base * base) as int, (e / 2) as nat)) == (r0 * base)
                    * pow((base * base) as int, (e / 2) as nat)) by (nonlinear_arith);
            }
        } else {
            proof {
                lemma_mul_mod_noop_general(result as int, pow(
                    (base * base) as int,
                    (e / 2) as nat,
                ), m);
            }
        }
        e = e / 2;
        proof {
            if e == 0 {
                lemma_pow0(base as int);
                lemma_pow0((base * base) as int);
            }
        }
        if e > 0 {
            let ghost b0 = base as int;
            proof {
                lemma_mod_product_fits(base as int, base as int, m);
            }
            base = (base * base) % modulus;
            proof {
                lemma_pow_mod_base(b0, e as nat, m, result as int);
            }
        }
    }
    proof {
        lemma_pow0(base as int);
        lemma_small_mod(result as nat, modulus as nat);
    }
    result
}

/// The product of two residues below a modulus of at most `0xB504_F333`
/// fits in an `i64`.
proof fn lemma_mod_product_fits(a: int, b: int, m: int)
    requires
        0 <= a < m,
        0 <= b < m,
        m <= 0xB504_F333,
    ensures
        0 <= a * b <= i64::MAX,
{
    assert(0 <= a * b && a * b <= (m - 1) * (m - 1)) by (nonlinear_arith)
        requires
            0 <= a < m,
            0 <= b < m,
    ;
    assert((m - 1) * (m - 1) <= 0xB504_F332 * 0xB504_F332) by (nonlinear_arith)
        requires
            0 <= m - 1 <= 0xB504_F332,
    ;
}

/// Reducing the base of a power in a product does not change the product's
/// residue.
proof fn lemma_pow_mod_base(b: int, e: nat, m: int, r: int)
    requires
        1 <= m,
    ensures
        (r * pow((b * b) % m, e)) % m == (r * pow(b * b, e)) % m,
{
    vstd::arithmetic::power::lemma_pow_mod_noop(b * b, e, m);
    lemma_mul_mod_noop_general(r, pow((b * b) % m, e), m);
    lemma_mul_mod_noop_general(r, pow(b * b, e), m);
    assert(pow((b * b) % m, e) % m == pow(b * b, e) % m);
}

} // verus!
